use vstd::prelude::*;

use crate::graph::{
    adjacent_spec, adjacent_tokens, ancestor_tokens, ancestors_spec, first_matching_edge,
    edge_label, graph_edge_count, graph_edge_endpoints, graph_edge_weight, graph_node_count,
    graph_nodes, graph_edges, first_match, DependencyEdge, nats, well_formed, DependencyGraph, Direction,
    EdgeDirection, EdgeFilter, EdgeSelect,
};
use crate::text::{same_text, starts_with_char};
use crate::graph::{
    heads_in_range, in_class, is_graph_of, lemma_count_unique, lemma_graph_edge_counts,
    sentence_to_graph, EdgeClass,
};
use crate::token::{clone_opt, feature_value, opt_view, Token};

verus! {

/// What the competition finder reads of a token: its part-of-speech tag and
/// its topological field.
pub struct TokenLabels {
    pub pos: Option<String>,
    pub field: Option<String>,
}

/// The name of the feature that holds a token's topological field.
pub const TOPO_FIELD_FEATURE: &'static str = "tf";

pub open spec fn pos_at(l: Seq<TokenLabels>, i: nat) -> Option<Seq<char>> {
    opt_view(l[i as int].pos)
}

pub open spec fn field_at(l: Seq<TokenLabels>, i: nat) -> Option<Seq<char>> {
    opt_view(l[i as int].field)
}

/// The labels of each token of a sentence: its tag and the value of its
/// topological-field feature.
pub fn token_labels(sentence: &Vec<Token>) -> (r: Vec<TokenLabels>)
    ensures
        r@.len() == sentence@.len(),
        forall|i: int|
            0 <= i < r@.len() ==> pos_at(r@, i as nat) == opt_view(#[trigger] sentence@[i].pos)
                && field_at(r@, i as nat) == sentence@[i].feature(TOPO_FIELD_FEATURE@),
{
    let mut r: Vec<TokenLabels> = Vec::new();
    let mut i: usize = 0;
    while i < sentence.len()
        invariant
            i <= sentence@.len(),
            r@.len() == i,
            forall|j: int|
                0 <= j < i ==> pos_at(r@, j as nat) == opt_view(#[trigger] sentence@[j].pos)
                    && field_at(r@, j as nat) == sentence@[j].feature(TOPO_FIELD_FEATURE@),
        decreases sentence@.len() - i,
    {
        let token = &sentence[i];
        r.push(TokenLabels { pos: clone_opt(&token.pos), field: feature_value(token, TOPO_FIELD_FEATURE) });
        i += 1;
    }
    r
}

/// A noun-like or verb-like tag: the tags of viable heads.
pub open spec fn relevant_tag(tag: Seq<char>) -> bool {
    tag.len() > 0 && (tag[0] == 'N' || tag[0] == 'V')
}

/// The tags of finite verbs: plain, auxiliary and modal.
pub open spec fn finite_verb_tag(tag: Seq<char>) -> bool {
    tag == "VVFIN"@ || tag == "VAFIN"@ || tag == "VMFIN"@
}

/// Whether the tag is noun-like or verb-like.
pub fn relevant_head_tag(tag: &str) -> (r: bool)
    ensures
        r == relevant_tag(tag@),
{
    starts_with_char(tag, 'N') || starts_with_char(tag, 'V')
}

fn is_finite_verb_tag(tag: &str) -> (r: bool)
    ensures
        r == finite_verb_tag(tag@),
{
    same_text(tag, "VVFIN") || same_text(tag, "VAFIN") || same_text(tag, "VMFIN")
}

/// Whether token `i` is in field `f`.
fn field_is(labels: &Vec<TokenLabels>, i: usize, f: &str) -> (r: bool)
    requires
        i < labels@.len(),
    ensures
        r == (field_at(labels@, i as nat) == Some(f@)),
{
    match &labels[i].field {
        Some(x) => same_text(x.as_str(), f),
        None => false,
    }
}

/// The graph and the labels describe the same sentence.
pub open spec fn labels_fit(g: DependencyGraph, l: Seq<TokenLabels>) -> bool {
    well_formed(g) && l.len() == graph_nodes(g).len()
}

/// The node that the outgoing AUX edge of `v` leads to, if any.
pub open spec fn aux_step(g: DependencyGraph, v: nat) -> Option<nat> {
    first_match(graph_edges(g), v, EdgeDirection::Outgoing, EdgeSelect::Labeled("AUX"@))
}

/// Following AUX edges from `v`, where `visited` holds the nodes reached so
/// far: the first node whose AUX edge is missing or leads back to a visited
/// node, taking at most `fuel` steps.
pub open spec fn resolve_from(g: DependencyGraph, v: nat, visited: Set<nat>, fuel: nat) -> nat
    decreases fuel,
{
    if fuel == 0 {
        v
    } else {
        match aux_step(g, v) {
            None => v,
            Some(w) => if visited.contains(w) {
                v
            } else {
                resolve_from(g, w, visited.insert(w), (fuel - 1) as nat)
            },
        }
    }
}

/// The node at the bottom of the chain of auxiliary relations below `v`; on
/// a cycle, the last node reached before the cycle closes.
pub open spec fn resolve_spec(g: DependencyGraph, v: nat) -> nat {
    resolve_from(g, v, set![v], graph_nodes(g).len())
}

/// The lexical verb that `verb` governs through auxiliary relations:
/// follows the outgoing AUX edge while there is one and it leads to a node
/// not reached before, at most as many times as the graph has nodes.
pub fn resolve_verb(graph: &DependencyGraph, verb: usize) -> (r: usize)
    requires
        well_formed(*graph),
        verb < graph_nodes(*graph).len(),
    ensures
        r < graph_nodes(*graph).len(),
        r as nat == resolve_spec(*graph, verb as nat),
{
    let n = graph_node_count(graph);
    let filter = EdgeFilter::Labeled("AUX".to_owned());
    let mut marks: Vec<bool> = Vec::new();
    let mut i: usize = 0;
    while i < n
        invariant
            i <= n,
            marks@.len() == i,
            forall|j: int| 0 <= j < i ==> !marks@[j],
        decreases n - i,
    {
        marks.push(false);
        i += 1;
    }
    marks[verb] = true;
    let ghost visited: Set<nat> = set![verb as nat];
    let mut cur = verb;
    let mut fuel: usize = n;
    while fuel > 0
        invariant
            well_formed(*graph),
            n == graph_nodes(*graph).len(),
            filter@ == EdgeSelect::Labeled("AUX"@),
            cur < n,
            fuel <= n,
            marks@.len() == n,
            forall|j: int| 0 <= j < n ==> #[trigger] marks@[j] == visited.contains(j as nat),
            resolve_from(*graph, cur as nat, visited, fuel as nat) == resolve_spec(*graph, verb as nat),
        ensures
            cur as nat == resolve_spec(*graph, verb as nat),
        decreases fuel,
    {
        match first_matching_edge(graph, cur, EdgeDirection::Outgoing, &filter) {
            None => break,
            Some(k) => {
                if marks[k] {
                    assert(visited.contains(k as nat));
                    break;
                }
                marks[k] = true;
                proof {
                    visited = visited.insert(k as nat);
                }
                cur = k;
                fuel -= 1;
            },
        }
    }
    cur
}

/// A node without an outgoing AUX edge resolves to itself.
pub proof fn lemma_resolve_fixed_point(g: DependencyGraph, v: nat)
    requires
        aux_step(g, v).is_none(),
    ensures
        resolve_spec(g, v) == v,
{
}

/// What `resolve_from` gives at position `i` of a path of distinct nodes
/// joined by AUX edges, which ends where the AUX edge is missing or leads
/// back into the path.
proof fn lemma_resolve_path(g: DependencyGraph, path: Seq<nat>, i: int, visited: Set<nat>, fuel: nat)
    requires
        0 <= i < path.len(),
        path.no_duplicates(),
        visited == path.subrange(0, i + 1).to_set(),
        fuel + i + 1 >= path.len(),
        forall|j: int| 0 <= j < path.len() - 1 ==> aux_step(g, #[trigger] path[j]) == Some(path[j + 1]),
        match aux_step(g, path.last()) {
            None => true,
            Some(x) => path.contains(x),
        },
    ensures
        resolve_from(g, path[i], visited, fuel) == path.last(),
    decreases path.len() - i,
{
    if i == path.len() - 1 {
        assert(path.subrange(0, i + 1) =~= path);
    } else {
        let w = path[i + 1];
        assert(aux_step(g, path[i]) == Some(w));
        assert(!visited.contains(w)) by {
            if visited.contains(w) {
                let j = choose|j: int| 0 <= j < i + 1 && #[trigger] path.subrange(0, i + 1)[j] == w;
                assert(path[j] == path[i + 1]);
            }
        }
        assert(visited.insert(w) =~= path.subrange(0, i + 2).to_set()) by {
            assert forall|x: nat| #[trigger] visited.insert(w).contains(x) <==> path.subrange(0, i + 2).to_set().contains(x) by {
                if path.subrange(0, i + 2).to_set().contains(x) {
                    let j = choose|j: int| 0 <= j < i + 2 && #[trigger] path.subrange(0, i + 2)[j] == x;
                    if j < i + 1 {
                        assert(path.subrange(0, i + 1)[j] == x);
                    }
                }
                if visited.contains(x) {
                    let j = choose|j: int| 0 <= j < i + 1 && #[trigger] path.subrange(0, i + 1)[j] == x;
                    assert(path.subrange(0, i + 2)[j] == x);
                }
                if x == w {
                    assert(path.subrange(0, i + 2)[i + 1] == x);
                }
            }
        }
        lemma_resolve_path(g, path, i + 1, visited.insert(w), (fuel - 1) as nat);
    }
}

proof fn lemma_chain_shift(g: DependencyGraph, chain: Seq<nat>, a: int, b: int, t: int)
    requires
        0 <= a < b,
        0 <= t,
        b + t < chain.len(),
        chain[a] == chain[b],
        forall|j: int| 0 <= j < chain.len() - 1 ==> aux_step(g, #[trigger] chain[j]) == Some(chain[j + 1]),
    ensures
        chain[a + t] == chain[b + t],
    decreases t,
{
    if t > 0 {
        lemma_chain_shift(g, chain, a, b, t - 1);
        assert(aux_step(g, chain[a + t - 1]) == Some(chain[a + t]));
        assert(aux_step(g, chain[b + t - 1]) == Some(chain[b + t]));
    }
}

/// A chain of AUX edges that ends at a node without one visits no node
/// twice.
proof fn lemma_chain_distinct(g: DependencyGraph, chain: Seq<nat>)
    requires
        chain.len() >= 1,
        forall|j: int| 0 <= j < chain.len() - 1 ==> aux_step(g, #[trigger] chain[j]) == Some(chain[j + 1]),
        aux_step(g, chain.last()).is_none(),
    ensures
        chain.no_duplicates(),
{
    assert forall|a: int, b: int| 0 <= a < chain.len() && 0 <= b < chain.len() && a != b implies chain[a] != chain[b] by {
        if chain[a] == chain[b] {
            let (x, y) = if a < b {
                (a, b)
            } else {
                (b, a)
            };
            let last = chain.len() - 1;
            lemma_chain_shift(g, chain, x, y, last - y);
            assert(aux_step(g, chain[x + last - y]) == Some(chain[x + last - y + 1]));
        }
    }
}

/// Along a chain of AUX edges `chain[0] -> chain[1] -> ...` whose last node
/// has no outgoing AUX edge, and which is no longer than the graph has
/// nodes, `resolve_verb` of the first node gives the last.
pub proof fn lemma_resolve_chain(g: DependencyGraph, chain: Seq<nat>)
    requires
        chain.len() >= 1,
        chain.len() <= graph_nodes(g).len(),
        forall|i: int| 0 <= i < chain.len() - 1 ==> aux_step(g, #[trigger] chain[i]) == Some(chain[i + 1]),
        aux_step(g, chain.last()).is_none(),
    ensures
        resolve_spec(g, chain[0]) == chain.last(),
{
    lemma_chain_distinct(g, chain);
    assert(chain.subrange(0, 1).to_set() =~= set![chain[0]]) by {
        assert(chain.subrange(0, 1)[0] == chain[0]);
    }
    lemma_resolve_path(g, chain, 0, set![chain[0]], graph_nodes(g).len());
}

/// On a cycle of AUX edges, reached from `path[0]` along the distinct nodes
/// of `path` and closed by the AUX edge of the last of them back into the
/// path, `resolve_verb` stops at that last node, the last one reached before
/// the cycle closes.
pub proof fn lemma_resolve_cycle(g: DependencyGraph, path: Seq<nat>)
    requires
        path.len() >= 1,
        path.len() <= graph_nodes(g).len(),
        path.no_duplicates(),
        forall|i: int| 0 <= i < path.len() - 1 ==> aux_step(g, #[trigger] path[i]) == Some(path[i + 1]),
        aux_step(g, path.last()).is_some(),
        path.contains(aux_step(g, path.last()).unwrap()),
    ensures
        resolve_spec(g, path[0]) == path.last(),
{
    assert(path.subrange(0, 1).to_set() =~= set![path[0]]) by {
        assert(path.subrange(0, 1)[0] == path[0]);
    }
    lemma_resolve_path(g, path, 0, set![path[0]], graph_nodes(g).len());
}

pub open spec fn opt_nat(r: Option<usize>) -> Option<nat> {
    match r {
        Some(k) => Some(k as nat),
        None => None,
    }
}

/// Walking up from a complementizer-field token: the first ancestor in the
/// right bracket (VC), provided every ancestor before it is in C; `None` at
/// a token without a field or in another field, or past the last ancestor.
pub open spec fn c_to_vc(l: Seq<TokenLabels>, a: Seq<nat>) -> Option<nat>
    decreases a.len(),
{
    if a.len() == 0 {
        None
    } else {
        match field_at(l, a[0]) {
            None => None,
            Some(f) => if f == "VC"@ {
                Some(a[0])
            } else if f != "C"@ {
                None
            } else {
                c_to_vc(l, a.drop_first())
            },
        }
    }
}

/// The right-bracket (VC) token that heads the clause of the
/// complementizer-field token `idx`, found among its ancestors.
pub fn traverse_c_to_vc(graph: &DependencyGraph, labels: &Vec<TokenLabels>, idx: usize) -> (r: Option<usize>)
    requires
        labels_fit(*graph, labels@),
        idx < graph_nodes(*graph).len(),
    ensures
        r.is_some() ==> r.unwrap() < graph_nodes(*graph).len(),
        opt_nat(r) == c_to_vc(labels@, ancestors_spec(*graph, idx as nat)),
{
    let a = ancestor_tokens(graph, idx).to_vec();
    let ghost s = nats(a@);
    assert(s.skip(0) =~= s);
    let mut i: usize = 0;
    while i < a.len()
        invariant
            labels_fit(*graph, labels@),
            s == nats(a@),
            s == ancestors_spec(*graph, idx as nat),
            forall|j: int| 0 <= j < a@.len() ==> #[trigger] a@[j] < graph_nodes(*graph).len(),
            i <= a@.len(),
            c_to_vc(labels@, s.skip(i as int)) == c_to_vc(labels@, s),
        decreases a@.len() - i,
    {
        let k = a[i];
        assert(s.skip(i as int)[0] == k as nat);
        assert(s.skip(i as int).drop_first() =~= s.skip(i + 1));
        if labels[k].field.is_none() {
            return None;
        }
        if field_is(labels, k, "VC") {
            return Some(k);
        }
        if !field_is(labels, k, "C") {
            return None;
        }
        i += 1;
    }
    assert(s.skip(i as int) =~= Seq::<nat>::empty());
    None
}

/// A candidate as a node and whether it is the gold head.
pub type CandidateModel = (nat, bool);

/// The candidates among the leading tokens of `s` that lie in field `a` or
/// `b`: each token with a noun-like or verb-like tag, up to the first token
/// outside the two fields or without a tag.
pub open spec fn field_cands(l: Seq<TokenLabels>, s: Seq<nat>, a: Seq<char>, b: Seq<char>, head: nat) -> Seq<CandidateModel>
    decreases s.len(),
{
    if s.len() == 0 {
        Seq::empty()
    } else if !(field_at(l, s[0]) == Some(a) || field_at(l, s[0]) == Some(b)) {
        Seq::empty()
    } else {
        match pos_at(l, s[0]) {
            None => Seq::empty(),
            Some(p) => (if relevant_tag(p) {
                seq![(s[0], s[0] == head)]
            } else {
                Seq::empty()
            }) + field_cands(l, s.drop_first(), a, b, head),
        }
    }
}

/// A competing attachment site for a PP: a node, and whether it is the
/// annotated (gold) head.
#[derive(Debug, Clone, Copy, PartialEq, Eq)]
pub struct CompetingHead {
    pub node: usize,
    pub head: bool,
}

pub open spec fn cands_view(v: Seq<CompetingHead>) -> Seq<CandidateModel> {
    v.map_values(|c: CompetingHead| (c.node as nat, c.head))
}

/// Appends the candidates among the leading tokens of `tokens` that lie in
/// field `a` or `b` (see `field_cands`).
pub fn add_tokens(
    labels: &Vec<TokenLabels>,
    head: usize,
    tokens: &Vec<usize>,
    a: &str,
    b: &str,
    candidates: &mut Vec<CompetingHead>,
)
    requires
        forall|j: int| 0 <= j < tokens@.len() ==> #[trigger] tokens@[j] < labels@.len(),
    ensures
        cands_view(final(candidates)@) == cands_view(old(candidates)@) + field_cands(
            labels@,
            nats(tokens@),
            a@,
            b@,
            head as nat,
        ),
{
    let ghost s = nats(tokens@);
    let ghost start = cands_view(candidates@);
    assert(s.skip(0) =~= s);
    let mut i: usize = 0;
    while i < tokens.len()
        invariant
            forall|j: int| 0 <= j < tokens@.len() ==> #[trigger] tokens@[j] < labels@.len(),
            s == nats(tokens@),
            i <= tokens@.len(),
            cands_view(candidates@) + field_cands(labels@, s.skip(i as int), a@, b@, head as nat)
                == start + field_cands(labels@, s, a@, b@, head as nat),
        ensures
            cands_view(candidates@) == start + field_cands(labels@, s, a@, b@, head as nat),
        decreases tokens@.len() - i,
    {
        let k = tokens[i];
        let ghost rest = s.skip(i as int);
        assert(rest[0] == k as nat);
        assert(rest.drop_first() =~= s.skip(i + 1));
        if !(field_is(labels, k, a) || field_is(labels, k, b)) {
            assert(cands_view(candidates@) + Seq::<CandidateModel>::empty() =~= cands_view(candidates@));
            break;
        }
        match &labels[k].pos {
            None => {
                assert(cands_view(candidates@) + Seq::<CandidateModel>::empty() =~= cands_view(candidates@));
                break;
            },
            Some(p) => {
                let ghost before = cands_view(candidates@);
                if relevant_head_tag(p.as_str()) {
                    candidates.push(CompetingHead { node: k, head: k == head });
                    assert(cands_view(candidates@) =~= before + seq![(k as nat, k == head)]);
                    assert(cands_view(candidates@) + field_cands(labels@, s.skip(i + 1), a@, b@, head as nat)
                        =~= before + (seq![(k as nat, k == head)] + field_cands(labels@, s.skip(i + 1), a@, b@, head as nat)));
                } else {
                    assert(Seq::<CandidateModel>::empty() + field_cands(labels@, s.skip(i + 1), a@, b@, head as nat)
                        =~= field_cands(labels@, s.skip(i + 1), a@, b@, head as nat));
                }
            },
        }
        i += 1;
    }
    proof {
        if i == tokens.len() {
            assert(s.skip(i as int) =~= Seq::<nat>::empty());
            assert(cands_view(candidates@) + Seq::<CandidateModel>::empty() =~= cands_view(candidates@));
        }
    }
}

/// The first token of `s` in field `a` or `b`.
pub open spec fn first_in_fields(l: Seq<TokenLabels>, s: Seq<nat>, a: Seq<char>, b: Seq<char>) -> Option<nat>
    decreases s.len(),
{
    if s.len() == 0 {
        None
    } else if field_at(l, s[0]) == Some(a) || field_at(l, s[0]) == Some(b) {
        Some(s[0])
    } else {
        first_in_fields(l, s.drop_first(), a, b)
    }
}

/// The first token of `s` in field `a` or `b`.
fn find_in_fields(labels: &Vec<TokenLabels>, tokens: &Vec<usize>, a: &str, b: &str) -> (r: Option<usize>)
    requires
        forall|j: int| 0 <= j < tokens@.len() ==> #[trigger] tokens@[j] < labels@.len(),
    ensures
        opt_nat(r) == first_in_fields(labels@, nats(tokens@), a@, b@),
        r.is_some() ==> r.unwrap() < labels@.len(),
{
    let ghost s = nats(tokens@);
    assert(s.skip(0) =~= s);
    let mut i: usize = 0;
    while i < tokens.len()
        invariant
            forall|j: int| 0 <= j < tokens@.len() ==> #[trigger] tokens@[j] < labels@.len(),
            s == nats(tokens@),
            i <= tokens@.len(),
            first_in_fields(labels@, s.skip(i as int), a@, b@) == first_in_fields(labels@, s, a@, b@),
        decreases tokens@.len() - i,
    {
        let k = tokens[i];
        assert(s.skip(i as int)[0] == k as nat);
        assert(s.skip(i as int).drop_first() =~= s.skip(i + 1));
        if field_is(labels, k, a) || field_is(labels, k, b) {
            return Some(k);
        }
        i += 1;
    }
    assert(s.skip(i as int) =~= Seq::<nat>::empty());
    None
}

/// The first token of `s` that is a verb in a bracket (LK or VC); `None`
/// where a token without a tag comes first.
pub open spec fn verb_bracket(l: Seq<TokenLabels>, s: Seq<nat>) -> Option<nat>
    decreases s.len(),
{
    if s.len() == 0 {
        None
    } else {
        match pos_at(l, s[0]) {
            None => None,
            Some(p) => if (field_at(l, s[0]) == Some("VC"@) || field_at(l, s[0]) == Some("LK"@))
                && p.len() > 0 && p[0] == 'V' {
                Some(s[0])
            } else {
                verb_bracket(l, s.drop_first())
            },
        }
    }
}

fn find_verb_bracket(labels: &Vec<TokenLabels>, tokens: &Vec<usize>) -> (r: Option<usize>)
    requires
        forall|j: int| 0 <= j < tokens@.len() ==> #[trigger] tokens@[j] < labels@.len(),
    ensures
        opt_nat(r) == verb_bracket(labels@, nats(tokens@)),
        r.is_some() ==> r.unwrap() < labels@.len(),
{
    let ghost s = nats(tokens@);
    assert(s.skip(0) =~= s);
    let mut i: usize = 0;
    while i < tokens.len()
        invariant
            forall|j: int| 0 <= j < tokens@.len() ==> #[trigger] tokens@[j] < labels@.len(),
            s == nats(tokens@),
            i <= tokens@.len(),
            verb_bracket(labels@, s.skip(i as int)) == verb_bracket(labels@, s),
        decreases tokens@.len() - i,
    {
        let k = tokens[i];
        assert(s.skip(i as int)[0] == k as nat);
        assert(s.skip(i as int).drop_first() =~= s.skip(i + 1));
        match &labels[k].pos {
            None => return None,
            Some(p) => {
                if (field_is(labels, k, "VC") || field_is(labels, k, "LK")) && starts_with_char(p.as_str(), 'V') {
                    return Some(k);
                }
            },
        }
        i += 1;
    }
    assert(s.skip(i as int) =~= Seq::<nat>::empty());
    None
}

/// Whether the token right before `p` has a noun tag; `false` at the start
/// of the sentence, `None` where that token has no tag.
pub open spec fn noun_before(g: DependencyGraph, l: Seq<TokenLabels>, p: nat) -> Option<bool> {
    let prec = adjacent_spec(g, p, Direction::Preceeding);
    if prec.len() == 0 {
        Some(false)
    } else {
        match pos_at(l, prec[0]) {
            None => None,
            Some(t) => Some(t.len() > 0 && t[0] == 'N'),
        }
    }
}

fn preceding_is_noun(graph: &DependencyGraph, labels: &Vec<TokenLabels>, prec: &Vec<usize>, p: usize) -> (r: Option<bool>)
    requires
        labels_fit(*graph, labels@),
        p < graph_nodes(*graph).len(),
        nats(prec@) == adjacent_spec(*graph, p as nat, Direction::Preceeding),
        forall|j: int| 0 <= j < prec@.len() ==> #[trigger] prec@[j] < labels@.len(),
    ensures
        r == noun_before(*graph, labels@, p as nat),
{
    if prec.len() == 0 {
        return Some(false);
    }
    assert(nats(prec@)[0] == prec@[0] as nat);
    match &labels[prec[0]].pos {
        None => None,
        Some(t) => Some(starts_with_char(t.as_str(), 'N')),
    }
}

fn contains_node(v: &Vec<usize>, x: usize) -> (r: bool)
    ensures
        r == nats(v@).contains(x as nat),
{
    let mut i: usize = 0;
    while i < v.len()
        invariant
            i <= v@.len(),
            forall|j: int| 0 <= j < i ==> v@[j] != x,
        decreases v@.len() - i,
    {
        if v[i] == x {
            assert(nats(v@)[i as int] == x as nat);
            return true;
        }
        i += 1;
    }
    assert(!nats(v@).contains(x as nat)) by {
        if nats(v@).contains(x as nat) {
            let j = choose|j: int| 0 <= j < nats(v@).len() && nats(v@)[j] == x as nat;
            assert(v@[j] == x);
        }
    }
    false
}

/// The verb that heads the clause, as first candidate of the VF and NF
/// procedures: it counts as the gold head where it is the head or lies
/// below it.
pub open spec fn clause_verb(g: DependencyGraph, bracket: nat, head: nat) -> CandidateModel {
    let v = resolve_spec(g, bracket);
    (v, v == head || ancestors_spec(g, v).contains(head))
}

fn clause_verb_candidate(graph: &DependencyGraph, bracket: usize, head: usize) -> (r: CompetingHead)
    requires
        well_formed(*graph),
        bracket < graph_nodes(*graph).len(),
    ensures
        (r.node as nat, r.head) == clause_verb(*graph, bracket as nat, head as nat),
        r.node < graph_nodes(*graph).len(),
{
    let v = resolve_verb(graph, bracket);
    let above = ancestor_tokens(graph, v).to_vec();
    CompetingHead { node: v, head: v == head || contains_node(&above, head) }
}

pub open spec fn opt_cands(r: Option<Vec<CompetingHead>>) -> Option<Seq<CandidateModel>> {
    match r {
        Some(v) => Some(cands_view(v@)),
        None => None,
    }
}

/// Competing heads of a PP in the prefield: the verb of the left bracket
/// after it; unless a noun precedes the PP, the candidates in the middle
/// field after the bracket; and the candidates in the prefield before the
/// PP. `None` where no left bracket follows the PP, or the token before the
/// PP has no tag.
pub open spec fn competition_vf(g: DependencyGraph, l: Seq<TokenLabels>, p: nat, head: nat) -> Option<Seq<CandidateModel>> {
    match first_in_fields(l, adjacent_spec(g, p, Direction::Succeeding), "LK"@, "LK"@) {
        None => None,
        Some(lk) => match noun_before(g, l, p) {
            None => None,
            Some(noun) => {
                let mf = if noun {
                    Seq::empty()
                } else {
                    field_cands(l, adjacent_spec(g, lk, Direction::Succeeding), "MF"@, "UK"@, head)
                };
                Some(seq![clause_verb(g, lk, head)] + mf + field_cands(
                    l,
                    adjacent_spec(g, p, Direction::Preceeding),
                    "VF"@,
                    "UK"@,
                    head,
                ))
            },
        },
    }
}

/// Competing heads of a PP in the postfield: the verb of the nearest bracket
/// before it; unless a noun precedes the PP, the candidates in the middle
/// field after the nearest C or LK token before it; and the candidates in
/// the postfield before the PP. `None` where there is no such bracket or no
/// such C or LK token, or a token looked at has no tag.
pub open spec fn competition_nf(g: DependencyGraph, l: Seq<TokenLabels>, p: nat, head: nat) -> Option<Seq<CandidateModel>> {
    let prec = adjacent_spec(g, p, Direction::Preceeding);
    match verb_bracket(l, prec) {
        None => None,
        Some(br) => match noun_before(g, l, p) {
            None => None,
            Some(noun) => {
                let nf = field_cands(l, prec, "NF"@, "UK"@, head);
                if noun {
                    Some(seq![clause_verb(g, br, head)] + nf)
                } else {
                    match first_in_fields(l, prec, "C"@, "LK"@) {
                        None => None,
                        Some(c) => Some(seq![clause_verb(g, br, head)] + field_cands(
                            l,
                            adjacent_spec(g, c, Direction::Succeeding),
                            "MF"@,
                            "UK"@,
                            head,
                        ) + nf),
                    }
                }
            },
        },
    }
}

/// The competing heads of the PP `p` in the prefield, whose gold head is
/// `head`.
pub fn find_competition_vf(graph: &DependencyGraph, labels: &Vec<TokenLabels>, p: usize, head: usize) -> (r: Option<Vec<CompetingHead>>)
    requires
        labels_fit(*graph, labels@),
        p < graph_nodes(*graph).len(),
    ensures
        opt_cands(r) == competition_vf(*graph, labels@, p as nat, head as nat),
{
    let after = adjacent_tokens(graph, p, Direction::Succeeding).to_vec();
    let lk = match find_in_fields(labels, &after, "LK", "LK") {
        None => return None,
        Some(k) => k,
    };
    let prec = adjacent_tokens(graph, p, Direction::Preceeding).to_vec();
    let noun = match preceding_is_noun(graph, labels, &prec, p) {
        None => return None,
        Some(b) => b,
    };
    let mut candidates: Vec<CompetingHead> = Vec::new();
    candidates.push(clause_verb_candidate(graph, lk, head));
    let ghost first = cands_view(candidates@);
    assert(first =~= seq![clause_verb(*graph, lk as nat, head as nat)]);
    if !noun {
        let mf = adjacent_tokens(graph, lk, Direction::Succeeding).to_vec();
        add_tokens(labels, head, &mf, "MF", "UK", &mut candidates);
    } else {
        assert(cands_view(candidates@) =~= first + Seq::<CandidateModel>::empty());
    }
    add_tokens(labels, head, &prec, "VF", "UK", &mut candidates);
    Some(candidates)
}

/// The competing heads of the PP `p` in the postfield, whose gold head is
/// `head`.
pub fn find_competition_nf(graph: &DependencyGraph, labels: &Vec<TokenLabels>, p: usize, head: usize) -> (r: Option<Vec<CompetingHead>>)
    requires
        labels_fit(*graph, labels@),
        p < graph_nodes(*graph).len(),
    ensures
        opt_cands(r) == competition_nf(*graph, labels@, p as nat, head as nat),
{
    let prec = adjacent_tokens(graph, p, Direction::Preceeding).to_vec();
    let bracket = match find_verb_bracket(labels, &prec) {
        None => return None,
        Some(k) => k,
    };
    let noun = match preceding_is_noun(graph, labels, &prec, p) {
        None => return None,
        Some(b) => b,
    };
    let mut candidates: Vec<CompetingHead> = Vec::new();
    candidates.push(clause_verb_candidate(graph, bracket, head));
    let ghost first = cands_view(candidates@);
    assert(first =~= seq![clause_verb(*graph, bracket as nat, head as nat)]);
    if !noun {
        let c = match find_in_fields(labels, &prec, "C", "LK") {
            None => return None,
            Some(k) => k,
        };
        let mf = adjacent_tokens(graph, c, Direction::Succeeding).to_vec();
        add_tokens(labels, head, &mf, "MF", "UK", &mut candidates);
    }
    add_tokens(labels, head, &prec, "NF", "UK", &mut candidates);
    Some(candidates)
}

/// The middle-field scan over the tokens `s` before the PP, nearest first,
/// with the candidates `acc` found so far: a finite verb, or the clause verb
/// above a complementizer-field token, ends the scan as the one candidate
/// added; middle-field and unknown-field tokens with a relevant tag are
/// added and the scan goes on; anything else, a token without tag or field,
/// a C token without a VC ancestor, or the start of the sentence, gives
/// `None`.
pub open spec fn mf_scan(g: DependencyGraph, l: Seq<TokenLabels>, s: Seq<nat>, head: nat, acc: Seq<CandidateModel>) -> Option<Seq<CandidateModel>>
    decreases s.len(),
{
    if s.len() == 0 {
        None
    } else {
        let idx = s[0];
        match (pos_at(l, idx), field_at(l, idx)) {
            (Some(pos), Some(tf)) => if finite_verb_tag(pos) {
                let v = resolve_spec(g, idx);
                Some(acc.push((v, v == head)))
            } else if tf == "C"@ {
                match c_to_vc(l, ancestors_spec(g, idx)) {
                    Some(f) => {
                        let v = resolve_spec(g, f);
                        Some(acc.push((v, v == head)))
                    },
                    None => None,
                }
            } else if tf == "MF"@ || tf == "UK"@ {
                mf_scan(
                    g,
                    l,
                    s.drop_first(),
                    head,
                    if relevant_tag(pos) {
                        acc.push((idx, idx == head))
                    } else {
                        acc
                    },
                )
            } else {
                None
            },
            _ => None,
        }
    }
}

/// Competing heads of a PP in the middle field (see `mf_scan`).
pub open spec fn competition_mf(g: DependencyGraph, l: Seq<TokenLabels>, p: nat, head: nat) -> Option<Seq<CandidateModel>> {
    mf_scan(g, l, adjacent_spec(g, p, Direction::Preceeding), head, Seq::empty())
}

/// The competing heads of the PP `p` in the middle field, whose gold head is
/// `head`.
pub fn find_competition_mf(graph: &DependencyGraph, labels: &Vec<TokenLabels>, p: usize, head: usize) -> (r: Option<Vec<CompetingHead>>)
    requires
        labels_fit(*graph, labels@),
        p < graph_nodes(*graph).len(),
    ensures
        opt_cands(r) == competition_mf(*graph, labels@, p as nat, head as nat),
{
    let prec = adjacent_tokens(graph, p, Direction::Preceeding).to_vec();
    let ghost s = nats(prec@);
    assert(s.skip(0) =~= s);
    let mut candidates: Vec<CompetingHead> = Vec::new();
    assert(cands_view(candidates@) =~= Seq::<CandidateModel>::empty());
    let mut i: usize = 0;
    while i < prec.len()
        invariant
            labels_fit(*graph, labels@),
            s == nats(prec@),
            s == adjacent_spec(*graph, p as nat, Direction::Preceeding),
            forall|j: int| 0 <= j < prec@.len() ==> #[trigger] prec@[j] < graph_nodes(*graph).len(),
            i <= prec@.len(),
            mf_scan(*graph, labels@, s.skip(i as int), head as nat, cands_view(candidates@))
                == competition_mf(*graph, labels@, p as nat, head as nat),
        decreases prec@.len() - i,
    {
        let idx = prec[i];
        assert(s.skip(i as int)[0] == idx as nat);
        assert(s.skip(i as int).drop_first() =~= s.skip(i + 1));
        let ghost before = cands_view(candidates@);
        let pos = match &labels[idx].pos {
            None => return None,
            Some(t) => t,
        };
        if labels[idx].field.is_none() {
            return None;
        }
        if is_finite_verb_tag(pos.as_str()) {
            let v = resolve_verb(graph, idx);
            candidates.push(CompetingHead { node: v, head: v == head });
            assert(cands_view(candidates@) =~= before.push((v as nat, v == head)));
            return Some(candidates);
        } else if field_is(labels, idx, "C") {
            match traverse_c_to_vc(graph, labels, idx) {
                Some(f) => {
                    let v = resolve_verb(graph, f);
                    candidates.push(CompetingHead { node: v, head: v == head });
                    assert(cands_view(candidates@) =~= before.push((v as nat, v == head)));
                    return Some(candidates);
                },
                None => return None,
            }
        } else if field_is(labels, idx, "MF") || field_is(labels, idx, "UK") {
            if relevant_head_tag(pos.as_str()) {
                candidates.push(CompetingHead { node: idx, head: idx == head });
                assert(cands_view(candidates@) =~= before.push((idx as nat, idx == head)));
            }
        } else {
            return None;
        }
        i += 1;
    }
    assert(s.skip(i as int) =~= Seq::<nat>::empty());
    None
}

/// The topological fields in which PPs are looked at.
#[derive(Debug, Clone, Copy, PartialEq, Eq)]
pub enum Field {
    VF,
    MF,
    NF,
}

pub open spec fn field_name(f: Field) -> Seq<char> {
    match f {
        Field::VF => "VF"@,
        Field::MF => "MF"@,
        Field::NF => "NF"@,
    }
}

pub open spec fn field_named(s: Seq<char>) -> Option<Field> {
    if s == "VF"@ {
        Some(Field::VF)
    } else if s == "MF"@ {
        Some(Field::MF)
    } else if s == "NF"@ {
        Some(Field::NF)
    } else {
        None
    }
}

impl Field {
    /// The label of the field.
    pub fn string_value(&self) -> (r: &'static str)
        ensures
            r@ == field_name(*self),
    {
        match self {
            Field::VF => "VF",
            Field::MF => "MF",
            Field::NF => "NF",
        }
    }

    /// The field with the given label, if it is VF, MF or NF.
    pub fn from_label(s: &str) -> (r: Option<Field>)
        ensures
            r == field_named(s@),
    {
        if same_text(s, "VF") {
            Some(Field::VF)
        } else if same_text(s, "MF") {
            Some(Field::MF)
        } else if same_text(s, "NF") {
            Some(Field::NF)
        } else {
            None
        }
    }
}

pub open spec fn competition(g: DependencyGraph, l: Seq<TokenLabels>, f: Field, p: nat, head: nat) -> Option<Seq<CandidateModel>> {
    match f {
        Field::VF => competition_vf(g, l, p, head),
        Field::MF => competition_mf(g, l, p, head),
        Field::NF => competition_nf(g, l, p, head),
    }
}

/// The competing heads of a PP in the given field.
pub fn find_competition(graph: &DependencyGraph, labels: &Vec<TokenLabels>, field: Field, p: usize, head: usize) -> (r: Option<Vec<CompetingHead>>)
    requires
        labels_fit(*graph, labels@),
        p < graph_nodes(*graph).len(),
    ensures
        opt_cands(r) == competition(*graph, labels@, field, p as nat, head as nat),
{
    match field {
        Field::VF => find_competition_vf(graph, labels, p, head),
        Field::MF => find_competition_mf(graph, labels, p, head),
        Field::NF => find_competition_nf(graph, labels, p, head),
    }
}

/// One PP with its competing heads: the preposition, its nominal complement
/// and the candidates.
pub struct TrainingInstance {
    pub prep: usize,
    pub prep_obj: usize,
    pub candidates: Vec<CompetingHead>,
}

pub type InstanceModel = (nat, nat, Seq<CandidateModel>);

pub open spec fn instance_view(t: TrainingInstance) -> InstanceModel {
    (t.prep as nat, t.prep_obj as nat, cands_view(t.candidates@))
}

pub open spec fn instances_view(v: Seq<TrainingInstance>) -> Seq<InstanceModel> {
    v.map_values(|t: TrainingInstance| instance_view(t))
}

/// Some candidate is the gold head.
pub open spec fn has_gold(c: Seq<CandidateModel>) -> bool {
    exists|i: int| 0 <= i < c.len() && (#[trigger] c[i]).1
}

/// A candidate list is reported where it holds the gold head and, unless all
/// PPs are asked for, more than one candidate.
pub open spec fn reported(c: Seq<CandidateModel>, all: bool) -> bool {
    has_gold(c) && (all || c.len() != 1)
}

/// The instance that an edge gives: a PP edge whose head has a relevant tag,
/// whose PP lies in VF, MF or NF, has a PN complement and competing heads
/// that are reported.
pub open spec fn instance_for(g: DependencyGraph, l: Seq<TokenLabels>, e: (nat, nat, Option<Option<Seq<char>>>), all: bool) -> Option<InstanceModel> {
    if e.2 != Some(Some("PP"@)) {
        None
    } else {
        match pos_at(l, e.0) {
            None => None,
            Some(hp) => if !relevant_tag(hp) {
                None
            } else {
                match field_at(l, e.1) {
                    None => None,
                    Some(fs) => match field_named(fs) {
                        None => None,
                        Some(f) => match first_match(graph_edges(g), e.1, EdgeDirection::Outgoing, EdgeSelect::Labeled("PN"@)) {
                            None => None,
                            Some(pn) => match competition(g, l, f, e.1, e.0) {
                                None => None,
                                Some(c) => if reported(c, all) {
                                    Some((e.1, pn, c))
                                } else {
                                    None
                                },
                            },
                        },
                    },
                }
            },
        }
    }
}

/// The instances of the first `k` edges, in edge order.
pub open spec fn instances_upto(g: DependencyGraph, l: Seq<TokenLabels>, all: bool, k: nat) -> Seq<InstanceModel>
    decreases k,
{
    if k == 0 {
        Seq::empty()
    } else {
        let prev = instances_upto(g, l, all, (k - 1) as nat);
        match instance_for(g, l, graph_edges(g)[k - 1], all) {
            Some(x) => prev.push(x),
            None => prev,
        }
    }
}

fn has_label(e: &DependencyEdge, l: &str) -> (r: bool)
    ensures
        r == (edge_label(*e) == Some(Some(l@))),
{
    match e {
        DependencyEdge::Relation(Some(x)) => same_text(x.as_str(), l),
        _ => false,
    }
}

/// Whether the candidates hold the gold head and, unless `all`, more than
/// one candidate.
pub fn is_reported(candidates: &Vec<CompetingHead>, all: bool) -> (r: bool)
    ensures
        r == reported(cands_view(candidates@), all),
{
    let mut i: usize = 0;
    let mut gold = false;
    while i < candidates.len()
        invariant
            i <= candidates@.len(),
            gold == exists|j: int| 0 <= j < i && (#[trigger] candidates@[j]).head,
        decreases candidates@.len() - i,
    {
        if candidates[i].head {
            gold = true;
        }
        i += 1;
    }
    proof {
        let c = cands_view(candidates@);
        if gold {
            let j = choose|j: int| 0 <= j < i && (#[trigger] candidates@[j]).head;
            assert(c[j].1);
        }
        if has_gold(c) {
            let j = choose|j: int| 0 <= j < c.len() && (#[trigger] c[j]).1;
            assert(candidates@[j].head);
        }
    }
    gold && (all || candidates.len() != 1)
}

/// The PPs of a sentence with their competing heads, one for each PP edge,
/// in edge order, that passes the checks of `instance_for`.
pub fn extract_ambiguous_pps(graph: &DependencyGraph, labels: &Vec<TokenLabels>, all: bool) -> (r: Vec<TrainingInstance>)
    requires
        labels_fit(*graph, labels@),
    ensures
        instances_view(r@) == instances_upto(*graph, labels@, all, graph_edges(*graph).len()),
{
    let m = graph_edge_count(graph);
    let pn = EdgeFilter::Labeled("PN".to_owned());
    let mut out: Vec<TrainingInstance> = Vec::new();
    let mut e: usize = 0;
    assert(instances_view(out@) =~= Seq::<InstanceModel>::empty());
    while e < m
        invariant
            labels_fit(*graph, labels@),
            m == graph_edges(*graph).len(),
            pn@ == EdgeSelect::Labeled("PN"@),
            e <= m,
            instances_view(out@) == instances_upto(*graph, labels@, all, e as nat),
        decreases m - e,
    {
        let ghost edge = graph_edges(*graph)[e as int];
        let ghost prev = instances_view(out@);
        assert(edge.0 < labels@.len() && edge.1 < labels@.len());
        let found = extract_instance(graph, labels, e, &pn, all);
        match found {
            Some(t) => {
                out.push(t);
                assert(instances_view(out@) =~= prev.push(instance_view(t)));
            },
            None => {},
        }
        e += 1;
    }
    out
}

fn extract_instance(graph: &DependencyGraph, labels: &Vec<TokenLabels>, e: usize, pn: &EdgeFilter, all: bool) -> (r: Option<TrainingInstance>)
    requires
        labels_fit(*graph, labels@),
        e < graph_edges(*graph).len(),
        pn@ == EdgeSelect::Labeled("PN"@),
    ensures
        match r {
            Some(t) => instance_for(*graph, labels@, graph_edges(*graph)[e as int], all) == Some(instance_view(t)),
            None => instance_for(*graph, labels@, graph_edges(*graph)[e as int], all).is_none(),
        },
{
    let ghost edge = graph_edges(*graph)[e as int];
    assert(edge.0 < labels@.len() && edge.1 < labels@.len());
    let (head, p) = match graph_edge_endpoints(graph, e) {
        Some(x) => x,
        None => return None,
    };
    match graph_edge_weight(graph, e) {
        Some(w) => {
            if !has_label(w, "PP") {
                return None;
            }
        },
        None => return None,
    }
    match &labels[head].pos {
        None => return None,
        Some(hp) => {
            if !relevant_head_tag(hp.as_str()) {
                return None;
            }
        },
    }
    let field = match &labels[p].field {
        None => return None,
        Some(fs) => match Field::from_label(fs.as_str()) {
            None => return None,
            Some(f) => f,
        },
    };
    let obj = match first_matching_edge(graph, p, EdgeDirection::Outgoing, pn) {
        None => return None,
        Some(k) => k,
    };
    let candidates = match find_competition(graph, labels, field, p, head) {
        None => return None,
        Some(c) => c,
    };
    if !is_reported(&candidates, all) {
        return None;
    }
    Some(TrainingInstance { prep: p, prep_obj: obj, candidates })
}

/// Whether every head of the chosen analysis names a token of the sentence
/// or the root.
pub fn heads_valid(sentence: &Vec<Token>, projective: bool) -> (r: bool)
    ensures
        r == heads_in_range(sentence@, projective),
{
    let n = sentence.len();
    let mut i: usize = 0;
    while i < n
        invariant
            n == sentence@.len(),
            i <= n,
            forall|j: int|
                0 <= j < i ==> match (#[trigger] sentence@[j]).head_in(projective) {
                    Some(h) => h <= n,
                    None => true,
                },
        decreases n - i,
    {
        let head = if projective {
            sentence[i].p_head
        } else {
            sentence[i].head
        };
        match head {
            Some(h) => {
                if h > n {
                    assert(sentence@[i as int].head_in(projective) == Some(h));
                    return false;
                }
            },
            None => {},
        }
        i += 1;
    }
    true
}

/// The instances of a sentence, read with its regular heads: builds the
/// graph and the token labels and extracts the PPs with their competing
/// heads. `None` where a head lies outside the sentence or the sentence is
/// too long to index.
pub fn sentence_instances(sentence: &Vec<Token>, all: bool) -> (r: Option<Vec<TrainingInstance>>)
    ensures
        r.is_none() == !(heads_in_range(sentence@, false) && sentence@.len() < 0x7fff_ffff),
        r.is_some() ==> exists|g: DependencyGraph, l: Seq<TokenLabels>|
            is_graph_of(g, sentence@, false) && labels_fit(g, l) && l.len() == sentence@.len()
                && (forall|i: int|
                0 <= i < l.len() ==> pos_at(l, i as nat) == opt_view(#[trigger] sentence@[i].pos)
                    && field_at(l, i as nat) == sentence@[i].feature(TOPO_FIELD_FEATURE@))
                && instances_view(r.unwrap()@) == instances_upto(g, l, all, graph_edges(g).len()),
{
    if sentence.len() >= 0x7fff_ffff || !heads_valid(sentence, false) {
        return None;
    }
    let graph = sentence_to_graph(sentence, false);
    let labels = token_labels(sentence);
    let r = extract_ambiguous_pps(&graph, &labels, all);
    Some(r)
}

/// The number of tokens with a noun-like or verb-like tag.
pub open spec fn relevant_count(s: Seq<Token>) -> nat
    decreases s.len(),
{
    if s.len() == 0 {
        0
    } else {
        relevant_count(s.drop_last()) + match s.last().pos {
            Some(t) => if relevant_tag(t@) {
                1nat
            } else {
                0nat
            },
            None => 0nat,
        }
    }
}

/// The number of tokens of the sentence whose tag is noun-like or verb-like.
pub fn relevant_tag_count(sentence: &Vec<Token>) -> (r: usize)
    ensures
        r as nat == relevant_count(sentence@),
{
    let mut c: usize = 0;
    let mut i: usize = 0;
    while i < sentence.len()
        invariant
            i <= sentence@.len(),
            c <= i,
            c as nat == relevant_count(sentence@.subrange(0, i as int)),
        decreases sentence@.len() - i,
    {
        assert(sentence@.subrange(0, i + 1).drop_last() =~= sentence@.subrange(0, i as int));
        match &sentence[i].pos {
            Some(t) => {
                if relevant_head_tag(t.as_str()) {
                    c += 1;
                }
            },
            None => {},
        }
        i += 1;
    }
    assert(sentence@.subrange(0, i as int) =~= sentence@);
    c
}

/// The (head, dependent) pairs of the first `k` edges that carry the
/// relation label `label`, in edge order.
pub open spec fn labeled_pairs(g: DependencyGraph, label: Seq<char>, k: nat) -> Seq<(nat, nat)>
    decreases k,
{
    if k == 0 {
        Seq::empty()
    } else {
        let prev = labeled_pairs(g, label, (k - 1) as nat);
        let e = graph_edges(g)[k - 1];
        if e.2 == Some(Some(label)) {
            prev.push((e.0, e.1))
        } else {
            prev
        }
    }
}

pub open spec fn pairs_view(v: Seq<(usize, usize)>) -> Seq<(nat, nat)> {
    v.map_values(|x: (usize, usize)| (x.0 as nat, x.1 as nat))
}

/// The (head, dependent) pairs of the relation edges labeled `label`, in
/// edge order.
pub fn relation_edges(graph: &DependencyGraph, label: &str) -> (r: Vec<(usize, usize)>)
    requires
        well_formed(*graph),
    ensures
        pairs_view(r@) == labeled_pairs(*graph, label@, graph_edges(*graph).len()),
        forall|i: int|
            0 <= i < r@.len() ==> (#[trigger] r@[i]).0 < graph_nodes(*graph).len() && r@[i].1
                < graph_nodes(*graph).len(),
{
    let m = graph_edge_count(graph);
    let mut out: Vec<(usize, usize)> = Vec::new();
    let mut e: usize = 0;
    assert(pairs_view(out@) =~= Seq::<(nat, nat)>::empty());
    while e < m
        invariant
            well_formed(*graph),
            m == graph_edges(*graph).len(),
            e <= m,
            pairs_view(out@) == labeled_pairs(*graph, label@, e as nat),
            forall|i: int|
                0 <= i < out@.len() ==> (#[trigger] out@[i]).0 < graph_nodes(*graph).len() && out@[i].1
                    < graph_nodes(*graph).len(),
        decreases m - e,
    {
        let ghost prev = pairs_view(out@);
        let ghost edge = graph_edges(*graph)[e as int];
        assert(edge.0 < graph_nodes(*graph).len() && edge.1 < graph_nodes(*graph).len());
        match (graph_edge_endpoints(graph, e), graph_edge_weight(graph, e)) {
            (Some(ends), Some(w)) => {
                if has_label(w, label) {
                    out.push(ends);
                    assert(pairs_view(out@) =~= prev.push((ends.0 as nat, ends.1 as nat)));
                }
            },
            _ => {},
        }
        e += 1;
    }
    out
}

/// The instances of `s` whose PP lies in field `f`, in order.
pub open spec fn in_field(l: Seq<TokenLabels>, s: Seq<InstanceModel>, f: Field) -> Seq<InstanceModel>
    decreases s.len(),
{
    if s.len() == 0 {
        s
    } else {
        let prev = in_field(l, s.drop_last(), f);
        if field_at(l, s.last().0) == Some(field_name(f)) {
            prev.push(s.last())
        } else {
            prev
        }
    }
}

/// The instances whose PP lies in the given field, in order.
pub fn instances_in_field(instances: Vec<TrainingInstance>, labels: &Vec<TokenLabels>, field: Field) -> (r: Vec<TrainingInstance>)
    requires
        forall|i: int| 0 <= i < instances@.len() ==> (#[trigger] instances@[i]).prep < labels@.len(),
    ensures
        instances_view(r@) == in_field(labels@, instances_view(instances@), field),
{
    let ghost orig = instances@;
    let ghost all = instances_view(instances@);
    let name = field.string_value();
    let mut out: Vec<TrainingInstance> = Vec::new();
    let mut rest = instances;
    let n = rest.len();
    let mut i: usize = 0;
    assert(all.subrange(0, 0) =~= Seq::<InstanceModel>::empty());
    assert(instances_view(out@) =~= Seq::<InstanceModel>::empty());
    assert(rest@ =~= orig.subrange(0, n as int));
    while i < n
        invariant
            n == orig.len(),
            all == instances_view(orig),
            forall|j: int| 0 <= j < orig.len() ==> (#[trigger] orig[j]).prep < labels@.len(),
            name@ == field_name(field),
            i <= n,
            rest@ == orig.subrange(i as int, n as int),
            instances_view(out@) == in_field(labels@, all.subrange(0, i as int), field),
        decreases n - i,
    {
        let ghost prev = instances_view(out@);
        let t = rest.remove(0);
        assert(t == orig[i as int]);
        assert(rest@ =~= orig.subrange(i + 1, n as int));
        assert(all.subrange(0, i + 1).drop_last() =~= all.subrange(0, i as int));
        assert(all.subrange(0, i + 1).last() == instance_view(t));
        if field_is(labels, t.prep, name) {
            out.push(t);
            assert(instances_view(out@) =~= prev.push(instance_view(t)));
        }
        i += 1;
    }
    assert(all.subrange(0, n as int) =~= all);
    out
}

proof fn lemma_instances_from_edges(g: DependencyGraph, l: Seq<TokenLabels>, all: bool, m: nat)
    requires
        m <= graph_edges(g).len(),
    ensures
        forall|k: int|
            0 <= k < instances_upto(g, l, all, m).len() ==> exists|j: int|
                0 <= j < m && instance_for(g, l, graph_edges(g)[j], all) == Some(
                    #[trigger] instances_upto(g, l, all, m)[k],
                ),
    decreases m,
{
    if m > 0 {
        let m1 = (m - 1) as nat;
        lemma_instances_from_edges(g, l, all, m1);
        let prev = instances_upto(g, l, all, m1);
        let cur = instances_upto(g, l, all, m);
        assert forall|k: int| 0 <= k < cur.len() implies exists|j: int|
            0 <= j < m && instance_for(g, l, graph_edges(g)[j], all) == Some(#[trigger] cur[k]) by {
            if k < prev.len() {
                assert(cur[k] == prev[k]);
                let j = choose|j: int| 0 <= j < m1 && instance_for(g, l, graph_edges(g)[j], all) == Some(prev[k]);
                assert(0 <= j < m);
            } else {
                assert(instance_for(g, l, graph_edges(g)[m1 as int], all) == Some(cur[k]));
            }
        }
    }
}

/// On the graph of a sentence, a PP can only get an instance from the one
/// relation edge that links it to its head: where that edge gives none, no
/// instance has the PP as its preposition.
pub proof fn lemma_no_instance_for_pp(
    g: DependencyGraph,
    sentence: Seq<Token>,
    projective: bool,
    l: Seq<TokenLabels>,
    all: bool,
    e: int,
)
    requires
        is_graph_of(g, sentence, projective),
        0 <= e < graph_edges(g).len(),
        graph_edges(g)[e].2.is_some(),
        instance_for(g, l, graph_edges(g)[e], all).is_none(),
    ensures
        forall|k: int|
            0 <= k < instances_upto(g, l, all, graph_edges(g).len()).len() ==> (#[trigger] instances_upto(
                g,
                l,
                all,
                graph_edges(g).len(),
            )[k]).0 != graph_edges(g)[e].1,
{
    let edges = graph_edges(g);
    let p = edges[e].1;
    let insts = instances_upto(g, l, all, edges.len());
    lemma_graph_edge_counts(g, sentence, projective);
    lemma_instances_from_edges(g, l, all, edges.len());
    assert forall|k: int| 0 <= k < insts.len() implies (#[trigger] insts[k]).0 != p by {
        let j = choose|j: int| 0 <= j < edges.len() && instance_for(g, l, edges[j], all) == Some(insts[k]);
        if insts[k].0 == p {
            assert(in_class(edges[j], EdgeClass::HeadEdgeOf(p)));
            assert(in_class(edges[e], EdgeClass::HeadEdgeOf(p)));
            assert(count_edges_head(g, p) <= 1);
            lemma_count_unique(edges, EdgeClass::HeadEdgeOf(p), j, e);
        }
    }
}

spec fn count_edges_head(g: DependencyGraph, p: nat) -> nat {
    crate::graph::count_edges(graph_edges(g), EdgeClass::HeadEdgeOf(p))
}

/// A PP edge whose head has a relevant tag, whose PP lies in a field of
/// VF, MF and NF and has a PN complement, and whose competing heads are the
/// gold head alone: it is reported when all PPs are asked for, and not
/// otherwise; on the graph of a sentence no instance has the PP as its
/// preposition then.
pub proof fn lemma_single_candidate_needs_all(
    g: DependencyGraph,
    sentence: Seq<Token>,
    projective: bool,
    l: Seq<TokenLabels>,
    e: int,
    f: Field,
)
    requires
        is_graph_of(g, sentence, projective),
        0 <= e < graph_edges(g).len(),
        graph_edges(g)[e].2 == Some(Some("PP"@)),
        pos_at(l, graph_edges(g)[e].0).is_some() && relevant_tag(pos_at(l, graph_edges(g)[e].0).unwrap()),
        field_at(l, graph_edges(g)[e].1) == Some(field_name(f)),
        first_match(graph_edges(g), graph_edges(g)[e].1, EdgeDirection::Outgoing, EdgeSelect::Labeled("PN"@)).is_some(),
        competition(g, l, f, graph_edges(g)[e].1, graph_edges(g)[e].0) == Some(
            seq![(graph_edges(g)[e].0, true)],
        ),
    ensures
        instance_for(g, l, graph_edges(g)[e], true).is_some(),
        instance_for(g, l, graph_edges(g)[e], false).is_none(),
        forall|k: int|
            0 <= k < instances_upto(g, l, false, graph_edges(g).len()).len() ==> (#[trigger] instances_upto(
                g,
                l,
                false,
                graph_edges(g).len(),
            )[k]).0 != graph_edges(g)[e].1,
{
    let edge = graph_edges(g)[e];
    let c = seq![(edge.0, true)];
    reveal_strlit("VF");
    reveal_strlit("MF");
    reveal_strlit("NF");
    assert("MF"@[0] != "VF"@[0] && "NF"@[0] != "VF"@[0] && "NF"@[0] != "MF"@[0]);
    assert(field_named(field_name(f)) == Some(f));
    assert(c[0].1);
    assert(has_gold(c));
    lemma_no_instance_for_pp(g, sentence, projective, l, false, e);
}

/// A PP in the middle field whose nearest preceding token is in the
/// complementizer field, is no finite verb, and has no right-bracket (VC)
/// ancestor that `c_to_vc` reaches, is given up whatever the mode: no
/// instance has it as its preposition.
pub proof fn lemma_complementizer_without_vc(
    g: DependencyGraph,
    sentence: Seq<Token>,
    projective: bool,
    l: Seq<TokenLabels>,
    all: bool,
    e: int,
)
    requires
        is_graph_of(g, sentence, projective),
        0 <= e < graph_edges(g).len(),
        graph_edges(g)[e].2.is_some(),
        field_at(l, graph_edges(g)[e].1) == Some("MF"@),
        adjacent_spec(g, graph_edges(g)[e].1, Direction::Preceeding).len() > 0,
        ({
            let q = adjacent_spec(g, graph_edges(g)[e].1, Direction::Preceeding)[0];
            &&& pos_at(l, q).is_some()
            &&& !finite_verb_tag(pos_at(l, q).unwrap())
            &&& field_at(l, q) == Some("C"@)
            &&& c_to_vc(l, ancestors_spec(g, q)).is_none()
        }),
    ensures
        instance_for(g, l, graph_edges(g)[e], all).is_none(),
        forall|k: int|
            0 <= k < instances_upto(g, l, all, graph_edges(g).len()).len() ==> (#[trigger] instances_upto(
                g,
                l,
                all,
                graph_edges(g).len(),
            )[k]).0 != graph_edges(g)[e].1,
{
    let edge = graph_edges(g)[e];
    reveal_strlit("VF");
    reveal_strlit("MF");
    assert("MF"@[0] != "VF"@[0]);
    assert(field_named("MF"@) == Some(Field::MF));
    assert(competition_mf(g, l, edge.1, edge.0).is_none());
    lemma_no_instance_for_pp(g, sentence, projective, l, all, e);
}

} // verus!
