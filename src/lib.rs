//! Extraction of prepositional-phrase attachment ambiguities from
//! dependency-parsed German sentences with topological-field labels.
//!
//! A sentence becomes a graph of its tokens (`graph`), linked by precedence
//! and by dependency relations. For each PP, `competition` finds the tokens
//! that could have been its head instead, by field-specific scans, and
//! `ranks` orders them by their distance from the PP.

pub mod competition;
pub mod graph;
pub mod ranks;
pub mod text;
pub mod token;

pub use competition::{
    add_tokens, extract_ambiguous_pps, find_competition, find_competition_mf,
    find_competition_nf, find_competition_vf, heads_valid, instances_in_field, is_reported,
    relation_edges, relevant_head_tag, relevant_tag_count, resolve_verb, sentence_instances, token_labels, traverse_c_to_vc,
    CompetingHead, Field, TokenLabels, TrainingInstance, TOPO_FIELD_FEATURE,
};
pub use graph::{
    adjacent_tokens, ancestor_tokens, first_matching_edge, is_relation, sentence_to_graph,
    AdjacentTokens, AncestorTokens, DependencyEdge, DependencyGraph, DependencyNode, Direction,
    EdgeDirection, EdgeFilter,
};
pub use ranks::compute_ranks;
pub use text::{same_text, starts_with_char};
pub use token::{extract_form, feature_value, Token};
