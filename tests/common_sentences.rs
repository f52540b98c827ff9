use extract_pps::{
    adjacent_tokens, ancestor_tokens, compute_ranks, extract_ambiguous_pps, extract_form,
    feature_value, find_competition_mf, find_competition_nf, find_competition_vf,
    first_matching_edge, heads_valid, instances_in_field, is_relation, relation_edges, relevant_head_tag, relevant_tag_count,
    resolve_verb, same_text, sentence_instances, sentence_to_graph, starts_with_char,
    token_labels, traverse_c_to_vc, CompetingHead, DependencyEdge, Direction, EdgeDirection,
    EdgeFilter, Field, Token,
};

fn tok(form: &str, pos: &str, field: &str, head: usize, rel: &str) -> Token {
    Token {
        form: form.to_string(),
        lemma: Some(form.to_lowercase()),
        pos: Some(pos.to_string()),
        features: Some(format!("tf:{}", field)),
        head: Some(head),
        head_rel: Some(rel.to_string()),
        p_head: None,
        p_head_rel: None,
    }
}

fn heads(c: &Option<Vec<CompetingHead>>) -> Option<Vec<(usize, bool)>> {
    c.as_ref().map(|v| v.iter().map(|h| (h.node, h.head)).collect())
}

// Er hat mit dem Mann Buch gegeben: a PP in the middle field, right after the
// finite auxiliary, attached to the main verb.
fn mf_after_auxiliary() -> Vec<Token> {
    vec![
        tok("Er", "PPER", "VF", 2, "SUBJ"),
        tok("hat", "VAFIN", "LK", 0, "ROOT"),
        tok("mit", "APPR", "MF", 7, "PP"),
        tok("dem", "ART", "MF", 5, "DET"),
        tok("Mann", "NN", "MF", 3, "PN"),
        tok("Buch", "NN", "MF", 7, "OBJA"),
        tok("gegeben", "VVPP", "VC", 2, "AUX"),
    ]
}

// Er hat den Mann mit Brille gesehen: a PP in the middle field attached to
// the noun before it.
fn mf_noun_attachment() -> Vec<Token> {
    vec![
        tok("Er", "PPER", "VF", 2, "SUBJ"),
        tok("hat", "VAFIN", "LK", 0, "ROOT"),
        tok("den", "ART", "MF", 4, "DET"),
        tok("Mann", "NN", "MF", 7, "OBJA"),
        tok("mit", "APPR", "MF", 4, "PP"),
        tok("Brille", "NN", "MF", 5, "PN"),
        tok("gesehen", "VVPP", "VC", 2, "AUX"),
    ]
}

// Mit dem Hammer schlug er den Nagel: a PP in the prefield.
fn vf_sentence() -> Vec<Token> {
    vec![
        tok("Mit", "APPR", "VF", 4, "PP"),
        tok("dem", "ART", "VF", 3, "DET"),
        tok("Hammer", "NN", "VF", 1, "PN"),
        tok("schlug", "VVFIN", "LK", 0, "ROOT"),
        tok("er", "PPER", "MF", 4, "SUBJ"),
        tok("den", "ART", "MF", 7, "DET"),
        tok("Nagel", "NN", "MF", 4, "OBJA"),
    ]
}

// Er hat dem Mann gewartet auf den Bus: a PP in the postfield.
fn nf_sentence() -> Vec<Token> {
    vec![
        tok("Er", "PPER", "VF", 2, "SUBJ"),
        tok("hat", "VAFIN", "LK", 0, "ROOT"),
        tok("Mann", "NN", "MF", 4, "OBJD"),
        tok("gewartet", "VVPP", "VC", 2, "AUX"),
        tok("auf", "APPR", "NF", 4, "PP"),
        tok("den", "ART", "NF", 7, "DET"),
        tok("Bus", "NN", "NF", 5, "PN"),
    ]
}

#[test]
fn graph_has_one_precedence_edge_per_adjacent_pair() {
    let s = mf_after_auxiliary();
    let g = sentence_to_graph(&s, false);
    assert_eq!(g.node_count(), 7);
    let prec = g.raw_edges().iter().filter(|e| e.weight == DependencyEdge::Precedence).count();
    let rel = g.raw_edges().iter().filter(|e| is_relation(&e.weight)).count();
    assert_eq!(prec, 6);
    assert_eq!(rel, 6);
    for i in 0..7 {
        let into = g
            .raw_edges()
            .iter()
            .filter(|e| is_relation(&e.weight) && e.target().index() == i)
            .count();
        assert!(into <= 1);
    }
}

#[test]
fn graph_of_empty_sentence() {
    let g = sentence_to_graph(&Vec::new(), false);
    assert_eq!(g.node_count(), 0);
    assert_eq!(g.edge_count(), 0);
}

#[test]
fn graph_uses_projective_heads_when_asked() {
    let mut s = mf_after_auxiliary();
    for t in s.iter_mut() {
        t.p_head = Some(0);
    }
    s[0].p_head = Some(7);
    s[0].p_head_rel = Some("X".to_string());
    let g = sentence_to_graph(&s, true);
    let rel: Vec<(usize, usize)> = g
        .raw_edges()
        .iter()
        .filter(|e| is_relation(&e.weight))
        .map(|e| (e.source().index(), e.target().index()))
        .collect();
    assert_eq!(rel, vec![(6, 0)]);
    assert_eq!(ancestor_tokens(&g, 0).to_vec(), vec![6]);
}

#[test]
fn adjacent_tokens_in_both_directions() {
    let s = mf_after_auxiliary();
    let g = sentence_to_graph(&s, false);
    assert_eq!(adjacent_tokens(&g, 3, Direction::Succeeding).to_vec(), vec![4, 5, 6]);
    assert_eq!(adjacent_tokens(&g, 3, Direction::Preceeding).to_vec(), vec![2, 1, 0]);
    assert_eq!(adjacent_tokens(&g, 0, Direction::Preceeding).to_vec(), Vec::<usize>::new());
    assert_eq!(adjacent_tokens(&g, 6, Direction::Succeeding).to_vec(), Vec::<usize>::new());
}

#[test]
fn ancestor_tokens_end_at_the_root() {
    let s = mf_after_auxiliary();
    let g = sentence_to_graph(&s, false);
    // Mann -> mit -> gegeben -> hat
    assert_eq!(ancestor_tokens(&g, 4).to_vec(), vec![2, 6, 1]);
    assert_eq!(ancestor_tokens(&g, 1).to_vec(), Vec::<usize>::new());
}

#[test]
fn ancestor_tokens_stop_on_a_cycle() {
    let s = vec![tok("a", "NN", "MF", 2, "X"), tok("b", "NN", "MF", 1, "X")];
    let g = sentence_to_graph(&s, false);
    let a = ancestor_tokens(&g, 0).to_vec();
    assert_eq!(a, vec![1, 0]);
}

#[test]
fn first_matching_edge_by_label() {
    let s = mf_after_auxiliary();
    let g = sentence_to_graph(&s, false);
    let pn = EdgeFilter::Labeled("PN".to_string());
    assert_eq!(first_matching_edge(&g, 2, EdgeDirection::Outgoing, &pn), Some(4));
    assert_eq!(first_matching_edge(&g, 3, EdgeDirection::Outgoing, &pn), None);
    assert_eq!(first_matching_edge(&g, 2, EdgeDirection::Incoming, &EdgeFilter::Relation), Some(6));
    assert_eq!(first_matching_edge(&g, 2, EdgeDirection::Incoming, &EdgeFilter::Precedence), Some(1));
}

#[test]
fn resolve_verb_follows_auxiliaries() {
    let s = mf_after_auxiliary();
    let g = sentence_to_graph(&s, false);
    assert_eq!(resolve_verb(&g, 1), 6);
    assert_eq!(resolve_verb(&g, 6), 6);
    assert_eq!(resolve_verb(&g, 0), 0);
}

#[test]
fn resolve_verb_follows_a_chain_of_two() {
    // wird gesehen worden sein: wird -AUX-> sein -AUX-> gesehen
    let s = vec![
        tok("Er", "PPER", "VF", 2, "SUBJ"),
        tok("wird", "VAFIN", "LK", 0, "ROOT"),
        tok("gesehen", "VVPP", "VC", 4, "AUX"),
        tok("sein", "VAINF", "VC", 2, "AUX"),
    ];
    let g = sentence_to_graph(&s, false);
    assert_eq!(resolve_verb(&g, 1), 2);
}

#[test]
fn resolve_verb_stops_on_an_auxiliary_cycle() {
    let s = vec![tok("a", "VAFIN", "LK", 2, "AUX"), tok("b", "VAINF", "VC", 1, "AUX")];
    let g = sentence_to_graph(&s, false);
    // The last node reached before the cycle closes.
    assert_eq!(resolve_verb(&g, 0), 1);
    assert_eq!(resolve_verb(&g, 1), 0);
}

#[test]
fn resolve_verb_stops_before_a_longer_cycle_closes() {
    // 0 -AUX-> 1 -AUX-> 2 -AUX-> 0, with a token after them.
    let s = vec![
        tok("a", "VAFIN", "LK", 3, "AUX"),
        tok("b", "VAINF", "VC", 1, "AUX"),
        tok("c", "VAINF", "VC", 2, "AUX"),
        tok("d", "NN", "NF", 0, "ROOT"),
    ];
    let g = sentence_to_graph(&s, false);
    assert_eq!(resolve_verb(&g, 0), 2);
    assert_eq!(resolve_verb(&g, 1), 0);
    assert_eq!(resolve_verb(&g, 3), 3);
}

#[test]
fn feature_value_reads_the_named_feature() {
    let t = tok("Mann", "NN", "MF", 0, "ROOT");
    assert_eq!(feature_value(&t, "tf"), Some("MF".to_string()));
    assert_eq!(feature_value(&t, "case"), None);
    let mut t2 = t;
    t2.features = Some("case:dat|tf:NF|gender".to_string());
    assert_eq!(feature_value(&t2, "tf"), Some("NF".to_string()));
    assert_eq!(feature_value(&t2, "case"), Some("dat".to_string()));
    assert_eq!(feature_value(&t2, "gender"), None);
    t2.features = None;
    assert_eq!(feature_value(&t2, "tf"), None);
}

#[test]
fn token_labels_hold_tag_and_field() {
    let s = nf_sentence();
    let l = token_labels(&s);
    assert_eq!(l.len(), 7);
    assert_eq!(l[4].pos.as_deref(), Some("APPR"));
    assert_eq!(l[4].field.as_deref(), Some("NF"));
}

#[test]
fn relevant_tags_are_nouns_and_verbs() {
    assert!(relevant_head_tag("NN"));
    assert!(relevant_head_tag("VVFIN"));
    assert!(!relevant_head_tag("APPR"));
    assert!(!relevant_head_tag(""));
    assert_eq!(relevant_tag_count(&mf_after_auxiliary()), 4);
}

#[test]
fn text_helpers() {
    assert!(same_text("MF", "MF"));
    assert!(!same_text("MF", "M"));
    assert!(!same_text("MF", "NF"));
    assert!(starts_with_char("NN", 'N'));
    assert!(!starts_with_char("", 'N'));
}

#[test]
fn field_labels() {
    assert_eq!(Field::VF.string_value(), "VF");
    assert_eq!(Field::MF.string_value(), "MF");
    assert_eq!(Field::NF.string_value(), "NF");
    assert_eq!(Field::from_label("NF"), Some(Field::NF));
    assert_eq!(Field::from_label("LK"), None);
}

#[test]
fn extract_form_picks_lemma_or_form() {
    let t = tok("Mann", "NN", "MF", 0, "ROOT");
    assert_eq!(extract_form(&t, false).map(|s| s.as_str()), Some("Mann"));
    assert_eq!(extract_form(&t, true).map(|s| s.as_str()), Some("mann"));
}

#[test]
fn heads_valid_rejects_heads_outside_the_sentence() {
    let mut s = mf_after_auxiliary();
    assert!(heads_valid(&s, false));
    s[0].head = Some(8);
    assert!(!heads_valid(&s, false));
    assert!(sentence_instances(&s, true).is_none());
}

#[test]
fn ranks_before_and_after_the_pp() {
    let c: Vec<CompetingHead> = [5, 1, 3, 8]
        .iter()
        .map(|&n| CompetingHead { node: n, head: false })
        .collect();
    assert_eq!(compute_ranks(4, &c), Some(vec![1, -2, -1, 2]));
    assert_eq!(compute_ranks(4, &c), compute_ranks(4, &c));
    assert_eq!(compute_ranks(4, &Vec::new()), Some(vec![]));
}

#[test]
fn ranks_of_a_candidate_at_the_pp_are_refused() {
    let c = vec![CompetingHead { node: 4, head: true }, CompetingHead { node: 2, head: false }];
    assert_eq!(compute_ranks(4, &c), None);
}

#[test]
fn mf_competition_stops_at_the_finite_verb() {
    let s = mf_noun_attachment();
    let g = sentence_to_graph(&s, false);
    let l = token_labels(&s);
    let c = find_competition_mf(&g, &l, 4, 3);
    assert_eq!(heads(&c), Some(vec![(3, true), (6, false)]));
    assert_eq!(compute_ranks(4, &c.unwrap()), Some(vec![-1, 1]));
}

#[test]
fn vf_competition_takes_verb_and_middle_field() {
    let s = vf_sentence();
    let g = sentence_to_graph(&s, false);
    let l = token_labels(&s);
    let c = find_competition_vf(&g, &l, 0, 3);
    assert_eq!(heads(&c), Some(vec![(3, true), (6, false)]));
}

#[test]
fn vf_competition_without_left_bracket_is_abandoned() {
    let mut s = vf_sentence();
    s[3].features = Some("tf:MF".to_string());
    let g = sentence_to_graph(&s, false);
    let l = token_labels(&s);
    assert!(find_competition_vf(&g, &l, 0, 3).is_none());
}

#[test]
fn nf_competition_takes_verb_and_middle_field() {
    let s = nf_sentence();
    let g = sentence_to_graph(&s, false);
    let l = token_labels(&s);
    let c = find_competition_nf(&g, &l, 4, 3);
    assert_eq!(heads(&c), Some(vec![(3, true), (2, false)]));
}

#[test]
fn nf_competition_after_a_noun_skips_the_middle_field() {
    let mut s = nf_sentence();
    s[3].pos = Some("NN".to_string());
    s[3].features = Some("tf:NF".to_string());
    s[3].head_rel = Some("OBJA".to_string());
    s[1].pos = Some("VVFIN".to_string());
    let g = sentence_to_graph(&s, false);
    let l = token_labels(&s);
    // The bracket is the finite verb; the noun before the PP is in NF.
    let c = find_competition_nf(&g, &l, 4, 3);
    assert_eq!(heads(&c), Some(vec![(1, false), (3, true)]));
}

#[test]
fn end_to_end_pp_after_auxiliary() {
    let s = mf_after_auxiliary();
    let all = sentence_instances(&s, true).unwrap();
    assert_eq!(all.len(), 1);
    let inst = &all[0];
    assert_eq!(inst.prep, 2);
    assert_eq!(inst.prep_obj, 4);
    assert_eq!(inst.candidates, vec![CompetingHead { node: 6, head: true }]);
    assert_eq!(compute_ranks(2, &inst.candidates), Some(vec![1]));
}

#[test]
fn single_candidate_needs_include_all() {
    let s = mf_after_auxiliary();
    assert_eq!(sentence_instances(&s, true).unwrap().len(), 1);
    assert_eq!(sentence_instances(&s, false).unwrap().len(), 0);
}

#[test]
fn ambiguous_pp_is_reported_by_default() {
    let s = mf_noun_attachment();
    let g = sentence_to_graph(&s, false);
    let l = token_labels(&s);
    let inst = extract_ambiguous_pps(&g, &l, false);
    assert_eq!(inst.len(), 1);
    assert_eq!((inst[0].prep, inst[0].prep_obj), (4, 5));
    assert_eq!(inst[0].candidates.len(), 2);
}

#[test]
fn pp_without_gold_head_among_candidates_is_dropped() {
    let mut s = mf_noun_attachment();
    // The PP now hangs from the subject, which no scan reaches.
    s[4].head = Some(1);
    s[0].pos = Some("NN".to_string());
    let g = sentence_to_graph(&s, false);
    let l = token_labels(&s);
    assert!(extract_ambiguous_pps(&g, &l, true).is_empty());
}

#[test]
fn complementizer_without_right_bracket_is_abandoned() {
    // dass mit dem Haus Mann: the C token hangs from a middle-field noun.
    let s = vec![
        tok("dass", "KOUS", "C", 5, "KOM"),
        tok("mit", "APPR", "MF", 5, "PP"),
        tok("dem", "ART", "MF", 4, "DET"),
        tok("Haus", "NN", "MF", 2, "PN"),
        tok("Mann", "NN", "MF", 0, "ROOT"),
    ];
    let g = sentence_to_graph(&s, false);
    let l = token_labels(&s);
    assert_eq!(traverse_c_to_vc(&g, &l, 0), None);
    assert!(find_competition_mf(&g, &l, 1, 4).is_none());
    assert!(extract_ambiguous_pps(&g, &l, true).is_empty());
}

#[test]
fn complementizer_leads_to_the_clause_verb() {
    // dass er mit dem Hammer geschlagen hat
    let s = vec![
        tok("dass", "KOUS", "C", 7, "KOM"),
        tok("er", "PPER", "MF", 7, "SUBJ"),
        tok("mit", "APPR", "MF", 6, "PP"),
        tok("dem", "ART", "MF", 5, "DET"),
        tok("Hammer", "NN", "MF", 3, "PN"),
        tok("geschlagen", "VVPP", "VC", 7, "AUX"),
        tok("hat", "VAFIN", "VC", 0, "ROOT"),
    ];
    let g = sentence_to_graph(&s, false);
    let l = token_labels(&s);
    assert_eq!(traverse_c_to_vc(&g, &l, 0), Some(6));
    let c = find_competition_mf(&g, &l, 2, 5);
    assert_eq!(heads(&c), Some(vec![(5, true)]));
}

#[test]
fn relation_edges_by_label() {
    let s = mf_after_auxiliary();
    let g = sentence_to_graph(&s, false);
    assert_eq!(relation_edges(&g, "PP"), vec![(6, 2)]);
    assert_eq!(relation_edges(&g, "AUX"), vec![(1, 6)]);
    assert_eq!(relation_edges(&g, "XYZ"), Vec::<(usize, usize)>::new());
}

#[test]
fn instances_in_field_keeps_the_asked_field() {
    let s = mf_noun_attachment();
    let g = sentence_to_graph(&s, false);
    let l = token_labels(&s);
    let mf = instances_in_field(extract_ambiguous_pps(&g, &l, true), &l, Field::MF);
    assert_eq!(mf.len(), 1);
    let vf = instances_in_field(extract_ambiguous_pps(&g, &l, true), &l, Field::VF);
    assert!(vf.is_empty());
}

#[test]
fn pp_right_after_the_finite_verb_gets_the_main_verb() {
    // Er hat mit Freude dem Mann ein Buch gegeben
    let s = vec![
        tok("Er", "PPER", "VF", 2, "SUBJ"),
        tok("hat", "VAFIN", "LK", 0, "ROOT"),
        tok("mit", "APPR", "MF", 9, "PP"),
        tok("Freude", "NN", "MF", 3, "PN"),
        tok("dem", "ART", "MF", 6, "DET"),
        tok("Mann", "NN", "MF", 9, "OBJD"),
        tok("ein", "ART", "MF", 8, "DET"),
        tok("Buch", "NN", "MF", 9, "OBJA"),
        tok("gegeben", "VVPP", "VC", 2, "AUX"),
    ];
    let inst = sentence_instances(&s, true).unwrap();
    assert_eq!(inst.len(), 1);
    assert_eq!((inst[0].prep, inst[0].prep_obj), (2, 3));
    assert_eq!(inst[0].candidates, vec![CompetingHead { node: 8, head: true }]);
    // gegeben follows the PP: offset delta 6, first rank after the PP.
    assert_eq!(inst[0].candidates[0].node as isize - inst[0].prep as isize, 6);
    assert_eq!(compute_ranks(inst[0].prep, &inst[0].candidates), Some(vec![1]));
    assert_eq!(sentence_instances(&s, false).unwrap().len(), 0);
}

#[test]
fn walks_hand_out_one_token_at_a_time() {
    let s = mf_after_auxiliary();
    let g = sentence_to_graph(&s, false);
    let mut before = adjacent_tokens(&g, 2, Direction::Preceeding);
    assert_eq!(before.next(), Some(1));
    assert_eq!(before.next(), Some(0));
    assert_eq!(before.next(), None);
    assert_eq!(before.next(), None);
    let mut up = ancestor_tokens(&g, 4);
    assert_eq!(up.next(), Some(2));
    assert_eq!(up.to_vec(), vec![6, 1]);
}

#[test]
fn first_matching_edge_takes_the_earliest_edge() {
    // The finite verb has two AUX dependents; the earlier one is taken.
    let s = vec![
        tok("hat", "VAFIN", "LK", 0, "ROOT"),
        tok("gesehen", "VVPP", "VC", 1, "AUX"),
        tok("gehabt", "VAPP", "VC", 1, "AUX"),
    ];
    let g = sentence_to_graph(&s, false);
    let aux = EdgeFilter::Labeled("AUX".to_string());
    assert_eq!(first_matching_edge(&g, 0, EdgeDirection::Outgoing, &aux), Some(1));
    assert_eq!(resolve_verb(&g, 0), 1);
}

#[test]
fn precedence_edges_join_neighbours_only() {
    let s = mf_after_auxiliary();
    let g = sentence_to_graph(&s, false);
    let mut pairs: Vec<(usize, usize)> = g
        .raw_edges()
        .iter()
        .filter(|e| e.weight == DependencyEdge::Precedence)
        .map(|e| (e.source().index(), e.target().index()))
        .collect();
    pairs.sort();
    assert_eq!(pairs, (0..6).map(|i| (i, i + 1)).collect::<Vec<_>>());
}

#[test]
fn ranks_fill_each_side() {
    let c: Vec<CompetingHead> = [9, 2, 5, 1, 7]
        .iter()
        .map(|&n| CompetingHead { node: n, head: false })
        .collect();
    assert_eq!(compute_ranks(6, &c), Some(vec![2, -2, -1, -3, 1]));
}
