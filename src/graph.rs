use vstd::prelude::*;

use crate::token::{clone_opt, opt_view, Token};

verus! {

#[verifier::external_type_specification]
#[verifier::external_body]
#[verifier::reject_recursive_types(N)]
#[verifier::reject_recursive_types(E)]
#[verifier::reject_recursive_types(Ty)]
#[verifier::reject_recursive_types(Ix)]
pub struct ExGraph<N, E, Ty, Ix>(petgraph::Graph<N, E, Ty, Ix>);

#[verifier::external_type_specification]
#[verifier::external_body]
pub struct ExDirected(petgraph::Directed);

/// An edge of the dependency graph: a syntactic relation from a head to its
/// dependent (with an optional label), or the precedence of one token over
/// the next.
#[derive(Debug, Clone, PartialEq, Eq)]
pub enum DependencyEdge {
    Relation(Option<String>),
    Precedence,
}

/// A node of the dependency graph: the offset of its token in the sentence.
#[derive(Debug, Clone, Copy, PartialEq, Eq)]
pub struct DependencyNode {
    pub offset: usize,
}

/// A sentence as a directed graph of its tokens.
pub type DependencyGraph = petgraph::Graph<DependencyNode, DependencyEdge, petgraph::Directed, u32>;

/// What an edge carries: `None` for precedence, `Some(label)` for a relation.
pub type EdgeLabel = Option<Option<Seq<char>>>;

/// An edge as source node, target node and what it carries.
pub type EdgeModel = (nat, nat, EdgeLabel);

pub open spec fn edge_label(e: DependencyEdge) -> EdgeLabel {
    match e {
        DependencyEdge::Relation(l) => Some(opt_view(l)),
        DependencyEdge::Precedence => None,
    }
}

/// The offsets held by the nodes of a graph, in the order of their indices.
pub uninterp spec fn graph_nodes(g: petgraph::Graph<DependencyNode, DependencyEdge, petgraph::Directed, u32>) -> Seq<nat>;

/// The edges of a graph, in the order in which they were added.
pub uninterp spec fn graph_edges(g: petgraph::Graph<DependencyNode, DependencyEdge, petgraph::Directed, u32>) -> Seq<EdgeModel>;

/// Relies on petgraph's `Graph::new`: a graph without nodes and edges.
#[verifier::external_body]
fn graph_new() -> (g: DependencyGraph)
    ensures
        graph_nodes(g) == Seq::<nat>::empty(),
        graph_edges(g) == Seq::<EdgeModel>::empty(),
{
    petgraph::Graph::new()
}

/// Relies on petgraph's `Graph::add_node`: the node is appended and its index
/// is the former node count. It panics once the count reaches `u32::MAX`.
#[verifier::external_body]
fn graph_add_node(g: &mut DependencyGraph, node: DependencyNode) -> (r: usize)
    requires
        graph_nodes(*old(g)).len() < u32::MAX,
    ensures
        graph_nodes(*final(g)) == graph_nodes(*old(g)).push(node.offset as nat),
        graph_edges(*final(g)) == graph_edges(*old(g)),
        r == graph_nodes(*old(g)).len(),
{
    g.add_node(node).index()
}

/// Relies on petgraph's `Graph::add_edge`: the edge is appended to the edge
/// list. It panics on a missing node or once the edge count reaches
/// `u32::MAX`.
#[verifier::external_body]
fn graph_add_edge(g: &mut DependencyGraph, a: usize, b: usize, edge: DependencyEdge)
    requires
        a < graph_nodes(*old(g)).len(),
        b < graph_nodes(*old(g)).len(),
        graph_edges(*old(g)).len() < u32::MAX,
    ensures
        graph_nodes(*final(g)) == graph_nodes(*old(g)),
        graph_edges(*final(g)) == graph_edges(*old(g)).push((a as nat, b as nat, edge_label(edge))),
{
    g.add_edge(petgraph::graph::NodeIndex::new(a), petgraph::graph::NodeIndex::new(b), edge);
}

/// Relies on petgraph's `Graph::node_count`.
#[verifier::external_body]
pub(crate) fn graph_node_count(g: &DependencyGraph) -> (r: usize)
    ensures
        r == graph_nodes(*g).len(),
{
    g.node_count()
}

/// Relies on petgraph's `Graph::edge_count`.
#[verifier::external_body]
pub(crate) fn graph_edge_count(g: &DependencyGraph) -> (r: usize)
    ensures
        r == graph_edges(*g).len(),
{
    g.edge_count()
}

/// Relies on petgraph's `Graph::edge_endpoints`: source and target of an
/// edge, `None` past the last edge.
#[verifier::external_body]
pub(crate) fn graph_edge_endpoints(g: &DependencyGraph, e: usize) -> (r: Option<(usize, usize)>)
    requires
        e < u32::MAX,
    ensures
        e < graph_edges(*g).len() ==> r == Some(
            (graph_edges(*g)[e as int].0 as usize, graph_edges(*g)[e as int].1 as usize),
        ),
        e >= graph_edges(*g).len() ==> r.is_none(),
{
    g.edge_endpoints(petgraph::graph::EdgeIndex::new(e)).map(|(a, b)| (a.index(), b.index()))
}

/// Relies on petgraph's `Graph::edge_weight`: what an edge carries, `None`
/// past the last edge.
#[verifier::external_body]
pub(crate) fn graph_edge_weight(g: &DependencyGraph, e: usize) -> (r: Option<&DependencyEdge>)
    requires
        e < u32::MAX,
    ensures
        e < graph_edges(*g).len() ==> r.is_some() && edge_label(*r.unwrap()) == graph_edges(
            *g,
        )[e as int].2,
        e >= graph_edges(*g).len() ==> r.is_none(),
{
    g.edge_weight(petgraph::graph::EdgeIndex::new(e))
}


/// The side of a node on which edges are looked up.
#[derive(Debug, Clone, Copy, PartialEq, Eq)]
pub enum EdgeDirection {
    Outgoing,
    Incoming,
}

/// Which edges a lookup accepts: precedence edges, relations with any
/// label, or relations with the given label.
#[derive(Debug, Clone, PartialEq, Eq)]
pub enum EdgeFilter {
    Precedence,
    Relation,
    Labeled(String),
}

/// The edges that a filter accepts, as a mathematical value.
pub enum EdgeSelect {
    Precedence,
    Relation,
    Labeled(Seq<char>),
}

impl EdgeSelect {
    pub open spec fn accepts(self, w: EdgeLabel) -> bool {
        match self {
            EdgeSelect::Precedence => w.is_none(),
            EdgeSelect::Relation => w.is_some(),
            EdgeSelect::Labeled(l) => w == Some(Some(l)),
        }
    }
}

impl View for EdgeFilter {
    type V = EdgeSelect;

    open spec fn view(&self) -> EdgeSelect {
        match self {
            EdgeFilter::Precedence => EdgeSelect::Precedence,
            EdgeFilter::Relation => EdgeSelect::Relation,
            EdgeFilter::Labeled(l) => EdgeSelect::Labeled(l@),
        }
    }
}

impl EdgeFilter {

    /// Whether the filter accepts the edge.
    pub fn accepts(&self, e: &DependencyEdge) -> (r: bool)
        ensures
            r == self@.accepts(edge_label(*e)),
    {
        match self {
            EdgeFilter::Precedence => match e {
                DependencyEdge::Precedence => true,
                DependencyEdge::Relation(_) => false,
            },
            EdgeFilter::Relation => is_relation(e),
            EdgeFilter::Labeled(l) => match e {
                DependencyEdge::Relation(Some(x)) => *x == *l,
                _ => false,
            },
        }
    }
}

/// Whether the edge is a relation edge.
pub fn is_relation(e: &DependencyEdge) -> (r: bool)
    ensures
        r == edge_label(*e).is_some(),
{
    match e {
        DependencyEdge::Relation(_) => true,
        DependencyEdge::Precedence => false,
    }
}

/// Whether the edge touches `node` on the given side.
pub open spec fn touches(e: EdgeModel, node: nat, dir: EdgeDirection) -> bool {
    match dir {
        EdgeDirection::Outgoing => e.0 == node,
        EdgeDirection::Incoming => e.1 == node,
    }
}

/// The node at the other end of an edge, seen from the given side.
pub open spec fn far_end(e: EdgeModel, dir: EdgeDirection) -> nat {
    match dir {
        EdgeDirection::Outgoing => e.1,
        EdgeDirection::Incoming => e.0,
    }
}

/// The edges at `node` on side `dir`, in the order in which they were added,
/// each as its far end and what it carries.
pub open spec fn incident(edges: Seq<EdgeModel>, node: nat, dir: EdgeDirection) -> Seq<(nat, EdgeLabel)>
    decreases edges.len(),
{
    if edges.len() == 0 {
        Seq::empty()
    } else {
        let prev = incident(edges.drop_last(), node, dir);
        let e = edges.last();
        if touches(e, node, dir) {
            prev.push((far_end(e, dir), e.2))
        } else {
            prev
        }
    }
}

/// The far end of the first entry whose edge the filter accepts.
pub open spec fn first_accepted(s: Seq<(nat, EdgeLabel)>, f: EdgeSelect) -> Option<nat>
    decreases s.len(),
{
    if s.len() == 0 {
        None
    } else if f.accepts(s[0].1) {
        Some(s[0].0)
    } else {
        first_accepted(s.drop_first(), f)
    }
}

/// The far end of the earliest added edge at `node`, on side `dir`, that the
/// filter accepts.
pub open spec fn first_match(edges: Seq<EdgeModel>, node: nat, dir: EdgeDirection, f: EdgeSelect) -> Option<nat> {
    first_accepted(incident(edges, node, dir), f)
}

/// The edges at `node` on side `dir`, in the order in which they were added.
pub open spec fn edges_at(edges: Seq<EdgeModel>, node: nat, dir: EdgeDirection) -> Seq<EdgeModel>
    decreases edges.len(),
{
    if edges.len() == 0 {
        Seq::empty()
    } else {
        let prev = edges_at(edges.drop_last(), node, dir);
        let e = edges.last();
        if touches(e, node, dir) {
            prev.push(e)
        } else {
            prev
        }
    }
}

pub open spec fn edge_refs_view(v: Seq<(usize, usize, &DependencyEdge)>) -> Seq<EdgeModel> {
    v.map_values(|x: (usize, usize, &DependencyEdge)| (x.0 as nat, x.1 as nat, edge_label(*x.2)))
}

/// Relies on petgraph's `Graph::edges_directed`, which lists the edges at a
/// node on one side, the most recently added first, each with its source,
/// target and weight.
#[verifier::external_body]
fn graph_edges_at<'a>(g: &'a DependencyGraph, node: usize, dir: EdgeDirection) -> (r: Vec<(usize, usize, &'a DependencyEdge)>)
    requires
        node < u32::MAX,
    ensures
        edge_refs_view(r@) == edges_at(graph_edges(*g), node as nat, dir).reverse(),
{
    let side = match dir {
        EdgeDirection::Outgoing => petgraph::Outgoing,
        EdgeDirection::Incoming => petgraph::Incoming,
    };
    g.edges_directed(petgraph::graph::NodeIndex::new(node), side).map(
        |e| (petgraph::visit::EdgeRef::source(&e).index(), petgraph::visit::EdgeRef::target(&e).index(), e.weight()),
    ).collect()
}

/// The entries of `incident` are the edges at the node, each seen from the
/// node.
proof fn lemma_incident_edges_at(edges: Seq<EdgeModel>, node: nat, dir: EdgeDirection)
    ensures
        incident(edges, node, dir).len() == edges_at(edges, node, dir).len(),
        forall|i: int|
            0 <= i < edges_at(edges, node, dir).len() ==> #[trigger] incident(edges, node, dir)[i] == (
                far_end(edges_at(edges, node, dir)[i], dir),
                edges_at(edges, node, dir)[i].2,
            ),
    decreases edges.len(),
{
    if edges.len() > 0 {
        lemma_incident_edges_at(edges.drop_last(), node, dir);
    }
}

/// Every edge of the graph joins two of its nodes.
pub open spec fn well_formed(g: DependencyGraph) -> bool {
    &&& graph_nodes(g).len() < u32::MAX
    &&& graph_edges(g).len() < u32::MAX
    &&& forall|i: int|
        0 <= i < graph_edges(g).len() ==> #[trigger] graph_edges(g)[i].0 < graph_nodes(g).len()
            && graph_edges(g)[i].1 < graph_nodes(g).len()
}

/// The node at the other end of the earliest added edge at `node`, on side
/// `dir`, that the filter accepts.
pub fn first_matching_edge(graph: &DependencyGraph, node: usize, dir: EdgeDirection, filter: &EdgeFilter) -> (r: Option<usize>)
    requires
        well_formed(*graph),
        node < graph_nodes(*graph).len(),
    ensures
        r.is_some() ==> r.unwrap() < graph_nodes(*graph).len(),
        match r {
            Some(k) => first_match(graph_edges(*graph), node as nat, dir, filter@) == Some(k as nat),
            None => first_match(graph_edges(*graph), node as nat, dir, filter@).is_none(),
        },
{
    let all = graph_edges_at(graph, node, dir);
    let ghost s = incident(graph_edges(*graph), node as nat, dir);
    let ghost t = edges_at(graph_edges(*graph), node as nat, dir);
    proof {
        lemma_incident_in_graph(graph_edges(*graph), graph_nodes(*graph).len(), node as nat, dir);
        lemma_incident_edges_at(graph_edges(*graph), node as nat, dir);
        assert(s.skip(0) =~= s);
        assert(edge_refs_view(all@).len() == all@.len());
        assert(t.reverse().len() == t.len());
    }
    let m = all.len();
    let mut j: usize = 0;
    while j < m
        invariant
            s == incident(graph_edges(*graph), node as nat, dir),
            t == edges_at(graph_edges(*graph), node as nat, dir),
            s.len() == t.len(),
            forall|i: int| 0 <= i < t.len() ==> #[trigger] s[i] == (far_end(t[i], dir), t[i].2),
            edge_refs_view(all@) == t.reverse(),
            m == s.len(),
            m == all@.len(),
            j <= m,
            forall|i: int| 0 <= i < s.len() ==> #[trigger] s[i].0 < graph_nodes(*graph).len(),
            first_accepted(s.skip(j as int), filter@) == first_accepted(s, filter@),
        decreases m - j,
    {
        let (source, target, w) = all[m - 1 - j];
        let k = match dir {
            EdgeDirection::Outgoing => target,
            EdgeDirection::Incoming => source,
        };
        proof {
            let v = edge_refs_view(all@);
            assert(v[(m - 1 - j) as int] == (source as nat, target as nat, edge_label(*w)));
            assert(t.reverse()[(m - 1 - j) as int] == t[j as int]);
            assert(s[j as int] == (k as nat, edge_label(*w)));
        }
        assert(s.skip(j as int)[0] == s[j as int]);
        assert(s.skip(j as int).drop_first() =~= s.skip(j + 1));
        if filter.accepts(w) {
            proof {
                let t = s.skip(j as int);
                assert(t.len() > 0);
                assert(filter@.accepts(t[0].1));
                assert(first_accepted(t, filter@) == Some(t[0].0));
                assert(t[0] == s[j as int]);
            }
            return Some(k);
        }
        j += 1;
    }
    assert(s.skip(j as int) =~= Seq::<(nat, EdgeLabel)>::empty());
    None
}

/// The far ends of the edges at a node are nodes of the graph.
proof fn lemma_incident_in_graph(edges: Seq<EdgeModel>, n: nat, node: nat, dir: EdgeDirection)
    requires
        forall|i: int| 0 <= i < edges.len() ==> #[trigger] edges[i].0 < n && edges[i].1 < n,
    ensures
        forall|i: int|
            0 <= i < incident(edges, node, dir).len() ==> #[trigger] incident(edges, node, dir)[i].0 < n,
    decreases edges.len(),
{
    if edges.len() > 0 {
        let e = edges.last();
        assert(e == edges[edges.len() - 1]);
        assert(e.0 < n && e.1 < n);
        assert forall|i: int| 0 <= i < edges.drop_last().len() implies #[trigger] edges.drop_last()[i].0 < n
            && edges.drop_last()[i].1 < n by {
            assert(edges.drop_last()[i] == edges[i]);
        }
        lemma_incident_in_graph(edges.drop_last(), n, node, dir);
        let prev = incident(edges.drop_last(), node, dir);
        if touches(e, node, dir) {
            assert(incident(edges, node, dir) == prev.push((far_end(e, dir), e.2)));
            assert forall|i: int| 0 <= i < incident(edges, node, dir).len() implies #[trigger] incident(
                edges,
                node,
                dir,
            )[i].0 < n by {
                if i < prev.len() {
                    assert(incident(edges, node, dir)[i] == prev[i]);
                }
            }
        }
    }
}

proof fn lemma_first_accepted_append(a: Seq<(nat, EdgeLabel)>, b: Seq<(nat, EdgeLabel)>, f: EdgeSelect)
    ensures
        first_accepted(a + b, f) == match first_accepted(a, f) {
            Some(x) => Some(x),
            None => first_accepted(b, f),
        },
    decreases a.len(),
{
    if a.len() == 0 {
        assert(a + b =~= b);
    } else {
        assert((a + b)[0] == a[0]);
        assert((a + b).drop_first() =~= a.drop_first() + b);
        lemma_first_accepted_append(a.drop_first(), b, f);
    }
}

/// Adding an edge changes what `first_match` finds only where nothing was
/// found before.
#[verifier::spinoff_prover]
proof fn lemma_first_match_push(edges: Seq<EdgeModel>, e: EdgeModel, node: nat, dir: EdgeDirection, f: EdgeSelect)
    ensures
        first_match(edges.push(e), node, dir, f) == match first_match(edges, node, dir, f) {
            Some(x) => Some(x),
            None => if touches(e, node, dir) && f.accepts(e.2) {
                Some(far_end(e, dir))
            } else {
                None
            },
        },
{
    assert(edges.push(e).drop_last() =~= edges);
    assert(edges.push(e).last() == e);
    let a = incident(edges, node, dir);
    if touches(e, node, dir) {
        let x = (far_end(e, dir), e.2);
        let b = seq![x];
        assert(incident(edges.push(e), node, dir) == a.push(x));
        assert(a.push(x) =~= a + b);
        lemma_first_accepted_append(a, b, f);
        assert(b.drop_first() =~= Seq::<(nat, EdgeLabel)>::empty());
        assert(first_accepted(b.drop_first(), f).is_none());
        if f.accepts(e.2) {
            assert(first_accepted(b, f) == Some(far_end(e, dir)));
        } else {
            assert(first_accepted(b, f).is_none());
        }
    } else {
        assert(incident(edges.push(e), node, dir) == a);
    }
}

/// The direction of a walk along the precedence edges.
#[derive(Debug, Clone, Copy, PartialEq, Eq)]
pub enum Direction {
    Preceeding,
    Succeeding,
}

pub open spec fn side_of(d: Direction) -> EdgeDirection {
    match d {
        Direction::Preceeding => EdgeDirection::Incoming,
        Direction::Succeeding => EdgeDirection::Outgoing,
    }
}

/// The nodes reached by following, at most `fuel` times, the edge that
/// `first_match` picks, starting just past `node`.
pub open spec fn walk(edges: Seq<EdgeModel>, node: nat, dir: EdgeDirection, f: EdgeSelect, fuel: nat) -> Seq<nat>
    decreases fuel,
{
    if fuel == 0 {
        Seq::empty()
    } else {
        match first_match(edges, node, dir, f) {
            None => Seq::empty(),
            Some(k) => seq![k] + walk(edges, k, dir, f, (fuel - 1) as nat),
        }
    }
}

pub open spec fn nats(v: Seq<usize>) -> Seq<nat> {
    v.map_values(|x: usize| x as nat)
}

/// The tokens that follow (or precede) `node` in the sentence, nearest first.
pub open spec fn adjacent_spec(g: DependencyGraph, node: nat, d: Direction) -> Seq<nat> {
    walk(graph_edges(g), node, side_of(d), EdgeSelect::Precedence, graph_nodes(g).len())
}

/// The heads above `node`, nearest first, walking at most as many steps as
/// the graph has nodes.
pub open spec fn ancestors_spec(g: DependencyGraph, node: nat) -> Seq<nat> {
    walk(graph_edges(g), node, EdgeDirection::Incoming, EdgeSelect::Relation, graph_nodes(g).len())
}

fn follow(graph: &DependencyGraph, node: usize, dir: EdgeDirection, filter: &EdgeFilter, steps: usize) -> (r: Vec<usize>)
    requires
        well_formed(*graph),
        node < graph_nodes(*graph).len(),
    ensures
        nats(r@) == walk(graph_edges(*graph), node as nat, dir, filter@, steps as nat),
        forall|i: int| 0 <= i < r@.len() ==> #[trigger] r@[i] < graph_nodes(*graph).len(),
{
    let n = graph_node_count(graph);
    let ghost edges = graph_edges(*graph);
    let mut out: Vec<usize> = Vec::new();
    let mut cur = node;
    let mut fuel: usize = steps;
    while fuel > 0
        invariant
            well_formed(*graph),
            n == graph_nodes(*graph).len(),
            edges == graph_edges(*graph),
            cur < n,
            fuel <= steps,
            nats(out@) + walk(edges, cur as nat, dir, filter@, fuel as nat) == walk(
                edges,
                node as nat,
                dir,
                filter@,
                steps as nat,
            ),
            forall|i: int| 0 <= i < out@.len() ==> #[trigger] out@[i] < n,
        ensures
            nats(out@) == walk(edges, node as nat, dir, filter@, steps as nat),
            forall|i: int| 0 <= i < out@.len() ==> #[trigger] out@[i] < n,
        decreases fuel,
    {
        match first_matching_edge(graph, cur, dir, filter) {
            None => {
                assert(walk(edges, cur as nat, dir, filter@, fuel as nat) =~= Seq::<nat>::empty());
                assert(nats(out@) + Seq::<nat>::empty() =~= nats(out@));
                break;
            },
            Some(k) => {
                let ghost before = out@;
                out.push(k);
                assert(nats(out@) =~= nats(before).push(k as nat));
                assert(nats(out@) + walk(edges, k as nat, dir, filter@, (fuel - 1) as nat) =~= nats(before)
                    + walk(edges, cur as nat, dir, filter@, fuel as nat));
                cur = k;
                fuel -= 1;
            },
        }
    }
    proof {
        if fuel == 0 {
            assert(nats(out@) + Seq::<nat>::empty() =~= nats(out@));
        }
    }
    out
}

/// The tokens next to a node in one direction, handed out one at a time,
/// nearest first, by following precedence edges.
pub struct AdjacentTokens<'a> {
    graph: &'a DependencyGraph,
    current: usize,
    direction: Direction,
    steps_left: usize,
}

impl<'a> AdjacentTokens<'a> {
    /// The graph that is walked.
    pub closed spec fn graph_view(&self) -> DependencyGraph {
        *self.graph
    }

    pub closed spec fn valid(&self) -> bool {
        well_formed(*self.graph) && self.current < graph_nodes(*self.graph).len()
    }

    /// The tokens still to come, nearest first.
    pub closed spec fn rest(&self) -> Seq<nat> {
        walk(
            graph_edges(*self.graph),
            self.current as nat,
            side_of(self.direction),
            EdgeSelect::Precedence,
            self.steps_left as nat,
        )
    }

    /// The next token, if any.
    pub fn next(&mut self) -> (r: Option<usize>)
        requires
            old(self).valid(),
        ensures
            final(self).valid(),
            final(self).graph_view() == old(self).graph_view(),
            match r {
                Some(k) => old(self).rest().len() > 0 && old(self).rest()[0] == k as nat
                    && final(self).rest() == old(self).rest().drop_first(),
                None => old(self).rest().len() == 0 && final(self).rest().len() == 0,
            },
    {
        if self.steps_left == 0 {
            return None;
        }
        let dir = match self.direction {
            Direction::Preceeding => EdgeDirection::Incoming,
            Direction::Succeeding => EdgeDirection::Outgoing,
        };
        match first_matching_edge(self.graph, self.current, dir, &EdgeFilter::Precedence) {
            Some(k) => {
                let ghost rest = walk(graph_edges(*self.graph), k as nat, dir, EdgeSelect::Precedence, (self.steps_left - 1) as nat);
                assert((seq![k as nat] + rest).drop_first() =~= rest);
                self.current = k;
                self.steps_left = self.steps_left - 1;
                Some(k)
            },
            None => None,
        }
    }

    /// All the tokens still to come, nearest first.
    pub fn to_vec(self) -> (r: Vec<usize>)
        requires
            self.valid(),
        ensures
            nats(r@) == self.rest(),
            forall|i: int| 0 <= i < r@.len() ==> #[trigger] r@[i] < graph_nodes(self.graph_view()).len(),
    {
        let dir = match self.direction {
            Direction::Preceeding => EdgeDirection::Incoming,
            Direction::Succeeding => EdgeDirection::Outgoing,
        };
        follow(self.graph, self.current, dir, &EdgeFilter::Precedence, self.steps_left)
    }
}

/// The tokens next to `node` in the given direction, nearest first, found by
/// following precedence edges.
pub fn adjacent_tokens<'a>(graph: &'a DependencyGraph, node: usize, direction: Direction) -> (r: AdjacentTokens<'a>)
    requires
        well_formed(*graph),
        node < graph_nodes(*graph).len(),
    ensures
        r.valid(),
        r.graph_view() == *graph,
        r.rest() == adjacent_spec(*graph, node as nat, direction),
{
    AdjacentTokens { graph, current: node, direction, steps_left: graph_node_count(graph) }
}

/// The heads above a node, handed out one at a time, nearest first, by
/// following relation edges towards the root; the walk stops at a root or
/// after as many steps as the graph has nodes.
pub struct AncestorTokens<'a> {
    graph: &'a DependencyGraph,
    current: usize,
    steps_left: usize,
}

impl<'a> AncestorTokens<'a> {
    /// The graph that is walked.
    pub closed spec fn graph_view(&self) -> DependencyGraph {
        *self.graph
    }

    pub closed spec fn valid(&self) -> bool {
        well_formed(*self.graph) && self.current < graph_nodes(*self.graph).len()
    }

    /// The heads still to come, nearest first.
    pub closed spec fn rest(&self) -> Seq<nat> {
        walk(
            graph_edges(*self.graph),
            self.current as nat,
            EdgeDirection::Incoming,
            EdgeSelect::Relation,
            self.steps_left as nat,
        )
    }

    /// The next head, if any.
    pub fn next(&mut self) -> (r: Option<usize>)
        requires
            old(self).valid(),
        ensures
            final(self).valid(),
            final(self).graph_view() == old(self).graph_view(),
            match r {
                Some(k) => old(self).rest().len() > 0 && old(self).rest()[0] == k as nat
                    && final(self).rest() == old(self).rest().drop_first(),
                None => old(self).rest().len() == 0 && final(self).rest().len() == 0,
            },
    {
        if self.steps_left == 0 {
            return None;
        }
        match first_matching_edge(self.graph, self.current, EdgeDirection::Incoming, &EdgeFilter::Relation) {
            Some(k) => {
                let ghost rest = walk(
                    graph_edges(*self.graph),
                    k as nat,
                    EdgeDirection::Incoming,
                    EdgeSelect::Relation,
                    (self.steps_left - 1) as nat,
                );
                assert((seq![k as nat] + rest).drop_first() =~= rest);
                self.current = k;
                self.steps_left = self.steps_left - 1;
                Some(k)
            },
            None => None,
        }
    }

    /// All the heads still to come, nearest first.
    pub fn to_vec(self) -> (r: Vec<usize>)
        requires
            self.valid(),
        ensures
            nats(r@) == self.rest(),
            forall|i: int| 0 <= i < r@.len() ==> #[trigger] r@[i] < graph_nodes(self.graph_view()).len(),
    {
        follow(self.graph, self.current, EdgeDirection::Incoming, &EdgeFilter::Relation, self.steps_left)
    }
}

/// The heads above `node`, nearest first, found by following relation edges
/// towards the root; the walk stops at a root or after as many steps as the
/// graph has nodes.
pub fn ancestor_tokens<'a>(graph: &'a DependencyGraph, node: usize) -> (r: AncestorTokens<'a>)
    requires
        well_formed(*graph),
        node < graph_nodes(*graph).len(),
    ensures
        r.valid(),
        r.graph_view() == *graph,
        r.rest() == ancestors_spec(*graph, node as nat),
{
    AncestorTokens { graph, current: node, steps_left: graph_node_count(graph) }
}

/// Every head index of the chosen analysis names a token of the sentence
/// (or is 0, for the root).
pub open spec fn heads_in_range(sentence: Seq<Token>, projective: bool) -> bool {
    forall|i: int|
        0 <= i < sentence.len() ==> match (#[trigger] sentence[i]).head_in(projective) {
            Some(h) => h <= sentence.len(),
            None => true,
        }
}

/// The edges added for the first `k` tokens: for each token, the precedence
/// edge from the token before it, then the relation edge from its head.
pub open spec fn built_edges(sentence: Seq<Token>, projective: bool, k: nat) -> Seq<EdgeModel>
    decreases k,
{
    if k == 0 {
        Seq::empty()
    } else {
        let i = (k - 1) as nat;
        let before = built_edges(sentence, projective, i);
        let with_prec = if i > 0 {
            before.push(((i - 1) as nat, i, None))
        } else {
            before
        };
        match sentence[i as int].head_in(projective) {
            Some(h) if h != 0 => with_prec.push(
                ((h - 1) as nat, i, Some(sentence[i as int].rel_in(projective))),
            ),
            _ => with_prec,
        }
    }
}

/// The graph of a sentence: node `i` holds offset `i`, and the edges are
/// `built_edges` of all tokens.
pub open spec fn is_graph_of(g: DependencyGraph, sentence: Seq<Token>, projective: bool) -> bool {
    &&& graph_nodes(g) == Seq::new(sentence.len(), |i: int| i as nat)
    &&& graph_edges(g) == built_edges(sentence, projective, sentence.len())
}

#[verifier::spinoff_prover]
proof fn lemma_built_edges_bounds(sentence: Seq<Token>, projective: bool, k: nat)
    requires
        k <= sentence.len(),
        heads_in_range(sentence, projective),
    ensures
        built_edges(sentence, projective, k).len() <= 2 * k,
        forall|j: int|
            0 <= j < built_edges(sentence, projective, k).len() ==> #[trigger] built_edges(
                sentence,
                projective,
                k,
            )[j].0 < sentence.len() && built_edges(sentence, projective, k)[j].1 < k,
    decreases k,
{
    if k > 0 {
        let i = (k - 1) as nat;
        lemma_built_edges_bounds(sentence, projective, i);
        let before = built_edges(sentence, projective, i);
        let with_prec = if i > 0 {
            before.push(((i - 1) as nat, i, None))
        } else {
            before
        };
        assert forall|j: int| 0 <= j < with_prec.len() implies #[trigger] with_prec[j].0 < sentence.len()
            && with_prec[j].1 < k by {
            if j < before.len() {
                assert(with_prec[j] == before[j]);
            }
        }
        let all = built_edges(sentence, projective, k);
        match sentence[i as int].head_in(projective) {
            Some(h) => {
                if h != 0 {
                    assert(h <= sentence.len());
                    let re: EdgeModel = ((h - 1) as nat, i, Some(sentence[i as int].rel_in(projective)));
                    assert(all == with_prec.push(re));
                    assert forall|j: int| 0 <= j < all.len() implies #[trigger] all[j].0 < sentence.len()
                        && all[j].1 < k by {
                        if j < with_prec.len() {
                            assert(all[j] == with_prec[j]);
                        }
                    }
                } else {
                    assert(all == with_prec);
                }
            },
            None => {
                assert(all == with_prec);
            },
        }
    }
}

/// The graph of a sentence: one node per token, holding its offset; a
/// precedence edge from each token to the next; and a relation edge from
/// each token's head (of the regular or the projective analysis) to the
/// token, carrying the relation's label.
pub fn sentence_to_graph(sentence: &Vec<Token>, projective: bool) -> (g: DependencyGraph)
    requires
        sentence@.len() < 0x7fff_ffff,
        heads_in_range(sentence@, projective),
    ensures
        is_graph_of(g, sentence@, projective),
        well_formed(g),
{
    let n = sentence.len();
    let mut g = graph_new();
    let mut i: usize = 0;
    while i < n
        invariant
            n == sentence@.len(),
            n < 0x7fff_ffff,
            i <= n,
            graph_nodes(g) == Seq::new(i as nat, |j: int| j as nat),
            graph_edges(g) == Seq::<EdgeModel>::empty(),
        decreases n - i,
    {
        graph_add_node(&mut g, DependencyNode { offset: i });
        assert(graph_nodes(g) =~= Seq::new((i + 1) as nat, |j: int| j as nat));
        i += 1;
    }
    let mut i: usize = 0;
    while i < n
        invariant
            n == sentence@.len(),
            n < 0x7fff_ffff,
            heads_in_range(sentence@, projective),
            i <= n,
            graph_nodes(g) == Seq::new(n as nat, |j: int| j as nat),
            graph_edges(g) == built_edges(sentence@, projective, i as nat),
        decreases n - i,
    {
        proof {
            lemma_built_edges_bounds(sentence@, projective, i as nat);
        }
        if i > 0 {
            graph_add_edge(&mut g, i - 1, i, DependencyEdge::Precedence);
        }
        let token = &sentence[i];
        let head = if projective {
            token.p_head
        } else {
            token.head
        };
        let rel = if projective {
            clone_opt(&token.p_head_rel)
        } else {
            clone_opt(&token.head_rel)
        };
        assert(sentence@[i as int].head_in(projective) == head);
        if let Some(h) = head {
            if h != 0 {
                graph_add_edge(&mut g, h - 1, i, DependencyEdge::Relation(rel));
            }
        }
        i += 1;
    }
    proof {
        lemma_built_edges_bounds(sentence@, projective, n as nat);
    }
    g
}

/// A class of edges to count.
pub enum EdgeClass {
    Precedence,
    Relation,
    /// The relation edges that end at the node, i.e. link it to a head.
    HeadEdgeOf(nat),
    /// The precedence edges that start at the node.
    PrecedenceFrom(nat),
}

pub open spec fn in_class(e: EdgeModel, c: EdgeClass) -> bool {
    match c {
        EdgeClass::Precedence => e.2.is_none(),
        EdgeClass::Relation => e.2.is_some(),
        EdgeClass::HeadEdgeOf(node) => e.2.is_some() && e.1 == node,
        EdgeClass::PrecedenceFrom(node) => e.2.is_none() && e.0 == node,
    }
}

/// The number of edges of the class.
pub open spec fn count_edges(edges: Seq<EdgeModel>, c: EdgeClass) -> nat
    decreases edges.len(),
{
    if edges.len() == 0 {
        0
    } else {
        count_edges(edges.drop_last(), c) + if in_class(edges.last(), c) {
            1nat
        } else {
            0nat
        }
    }
}

proof fn lemma_count_push(edges: Seq<EdgeModel>, e: EdgeModel, c: EdgeClass)
    ensures
        count_edges(edges.push(e), c) == count_edges(edges, c) + if in_class(e, c) {
            1nat
        } else {
            0nat
        },
{
    assert(edges.push(e).drop_last() =~= edges);
}

proof fn lemma_built_counts(sentence: Seq<Token>, projective: bool, k: nat)
    requires
        k <= sentence.len(),
    ensures
        count_edges(built_edges(sentence, projective, k), EdgeClass::Precedence) == if k
            == 0 {
            0
        } else {
            k - 1
        },
        count_edges(built_edges(sentence, projective, k), EdgeClass::Relation) <= k,
        forall|node: nat|
            #![trigger count_edges(built_edges(sentence, projective, k), EdgeClass::HeadEdgeOf(node))]
            count_edges(built_edges(sentence, projective, k), EdgeClass::HeadEdgeOf(node))
                <= if node < k {
                1nat
            } else {
                0nat
            },
    decreases k,
{
    if k > 0 {
        let i = (k - 1) as nat;
        lemma_built_counts(sentence, projective, i);
        let before = built_edges(sentence, projective, i);
        let with_prec = if i > 0 {
            before.push(((i - 1) as nat, i, None))
        } else {
            before
        };
        let prec = EdgeClass::Precedence;
        let rel = EdgeClass::Relation;
        if i > 0 {
            lemma_count_push(before, ((i - 1) as nat, i, None), prec);
            lemma_count_push(before, ((i - 1) as nat, i, None), rel);
        }
        assert forall|node: nat|
            count_edges(with_prec, EdgeClass::HeadEdgeOf(node)) == count_edges(
                before,
                EdgeClass::HeadEdgeOf(node),
            ) by {
            if i > 0 {
                lemma_count_push(before, ((i - 1) as nat, i, None), EdgeClass::HeadEdgeOf(node));
            }
        }
        match sentence[i as int].head_in(projective) {
            Some(h) => {
                if h != 0 {
                    let e: EdgeModel = ((h - 1) as nat, i, Some(sentence[i as int].rel_in(projective)));
                    lemma_count_push(with_prec, e, prec);
                    lemma_count_push(with_prec, e, rel);
                    assert forall|node: nat|
                        count_edges(built_edges(sentence, projective, k), EdgeClass::HeadEdgeOf(node))
                            <= if node < k {
                            1nat
                        } else {
                            0nat
                        } by {
                        lemma_count_push(with_prec, e, EdgeClass::HeadEdgeOf(node));
                    }
                }
            },
            None => {},
        }
    }
}

#[verifier::spinoff_prover]
proof fn lemma_built_precedence(sentence: Seq<Token>, projective: bool, k: nat)
    requires
        k <= sentence.len(),
    ensures
        forall|j: int|
            0 <= j < built_edges(sentence, projective, k).len() && (#[trigger] built_edges(
                sentence,
                projective,
                k,
            )[j]).2.is_none() ==> built_edges(sentence, projective, k)[j].1 == built_edges(
                sentence,
                projective,
                k,
            )[j].0 + 1,
        forall|v: nat|
            #![trigger count_edges(built_edges(sentence, projective, k), EdgeClass::PrecedenceFrom(v))]
            count_edges(built_edges(sentence, projective, k), EdgeClass::PrecedenceFrom(v)) == if v + 1 < k {
                1nat
            } else {
                0nat
            },
    decreases k,
{
    if k > 0 {
        let i = (k - 1) as nat;
        lemma_built_precedence(sentence, projective, i);
        let before = built_edges(sentence, projective, i);
        let pe: EdgeModel = ((i - 1) as nat, i, None);
        let with_prec = if i > 0 {
            before.push(pe)
        } else {
            before
        };
        assert forall|j: int| 0 <= j < with_prec.len() && (#[trigger] with_prec[j]).2.is_none() implies with_prec[j].1
            == with_prec[j].0 + 1 by {
            if j < before.len() {
                assert(with_prec[j] == before[j]);
            }
        }
        assert forall|v: nat|
            count_edges(with_prec, EdgeClass::PrecedenceFrom(v)) == (if v + 1 < k {
                1nat
            } else {
                0nat
            }) by {
            if i > 0 {
                lemma_count_push(before, pe, EdgeClass::PrecedenceFrom(v));
            }
        }
        let all = built_edges(sentence, projective, k);
        match sentence[i as int].head_in(projective) {
            Some(h) => {
                if h != 0 {
                    let re: EdgeModel = ((h - 1) as nat, i, Some(sentence[i as int].rel_in(projective)));
                    assert(all == with_prec.push(re));
                    assert forall|j: int| 0 <= j < all.len() && (#[trigger] all[j]).2.is_none() implies all[j].1
                        == all[j].0 + 1 by {
                        if j < with_prec.len() {
                            assert(all[j] == with_prec[j]);
                        }
                    }
                    assert forall|v: nat|
                        #[trigger] count_edges(all, EdgeClass::PrecedenceFrom(v)) == (if v + 1 < k {
                            1nat
                        } else {
                            0nat
                        }) by {
                        lemma_count_push(with_prec, re, EdgeClass::PrecedenceFrom(v));
                    }
                } else {
                    assert(all == with_prec);
                }
            },
            None => {
                assert(all == with_prec);
            },
        }
    }
}

proof fn lemma_count_pos(edges: Seq<EdgeModel>, c: EdgeClass, i: int)
    requires
        0 <= i < edges.len(),
        in_class(edges[i], c),
    ensures
        count_edges(edges, c) >= 1,
    decreases edges.len(),
{
    if i < edges.len() - 1 {
        assert(edges.drop_last()[i] == edges[i]);
        lemma_count_pos(edges.drop_last(), c, i);
    }
}

/// Where at most one edge is of a class, two edges of the class are the same.
pub proof fn lemma_count_unique(edges: Seq<EdgeModel>, c: EdgeClass, i: int, j: int)
    requires
        0 <= i < edges.len(),
        0 <= j < edges.len(),
        in_class(edges[i], c),
        in_class(edges[j], c),
        count_edges(edges, c) <= 1,
    ensures
        i == j,
    decreases edges.len(),
{
    let last = edges.len() - 1;
    let rest = edges.drop_last();
    if i < last && j < last {
        assert(rest[i] == edges[i] && rest[j] == edges[j]);
        lemma_count_unique(rest, c, i, j);
    } else if i < last {
        assert(rest[i] == edges[i]);
        lemma_count_pos(rest, c, i);
    } else if j < last {
        assert(rest[j] == edges[j]);
        lemma_count_pos(rest, c, j);
    }
}

/// The graph of a sentence of `n` tokens has `n - 1` precedence edges, one
/// from each node `i < n - 1` to `i + 1` and none between other nodes; at
/// most `n` relation edges; and each node is linked to at most one head,
/// i.e. each node ends at most one relation edge.
pub proof fn lemma_graph_edge_counts(g: DependencyGraph, sentence: Seq<Token>, projective: bool)
    requires
        is_graph_of(g, sentence, projective),
    ensures
        sentence.len() > 0 ==> count_edges(graph_edges(g), EdgeClass::Precedence) == sentence.len() - 1,
        count_edges(graph_edges(g), EdgeClass::Relation) <= sentence.len(),
        forall|node: nat|
            #![trigger count_edges(graph_edges(g), EdgeClass::HeadEdgeOf(node))]
            count_edges(graph_edges(g), EdgeClass::HeadEdgeOf(node)) <= 1,
        forall|j: int|
            0 <= j < graph_edges(g).len() && (#[trigger] graph_edges(g)[j]).2.is_none() ==> graph_edges(g)[j].1
                == graph_edges(g)[j].0 + 1,
        forall|v: nat|
            #![trigger count_edges(graph_edges(g), EdgeClass::PrecedenceFrom(v))]
            count_edges(graph_edges(g), EdgeClass::PrecedenceFrom(v)) == if v + 1 < sentence.len() {
                1nat
            } else {
                0nat
            },
{
    lemma_built_counts(sentence, projective, sentence.len());
    lemma_built_precedence(sentence, projective, sentence.len());
}

proof fn lemma_walk_len(edges: Seq<EdgeModel>, node: nat, dir: EdgeDirection, f: EdgeSelect, fuel: nat)
    ensures
        walk(edges, node, dir, f, fuel).len() <= fuel,
    decreases fuel,
{
    if fuel > 0 {
        match first_match(edges, node, dir, f) {
            Some(k) => lemma_walk_len(edges, k, dir, f, (fuel - 1) as nat),
            None => {},
        }
    }
}

/// Whether `node` has a head, i.e. ends a relation edge.
pub open spec fn has_head(g: DependencyGraph, node: nat) -> bool {
    first_match(graph_edges(g), node, EdgeDirection::Incoming, EdgeSelect::Relation).is_some()
}

/// The head of `node`, if it has one.
pub open spec fn head_of(g: DependencyGraph, node: nat) -> Option<nat> {
    first_match(graph_edges(g), node, EdgeDirection::Incoming, EdgeSelect::Relation)
}

proof fn lemma_walk_reaches_root(g: DependencyGraph, node: nat, depth: spec_fn(nat) -> nat, fuel: nat)
    requires
        fuel > depth(node),
        forall|v: nat, h: nat| head_of(g, v) == Some(h) ==> #[trigger] depth(h) < #[trigger] depth(v),
    ensures
        ({
            let w = walk(graph_edges(g), node, EdgeDirection::Incoming, EdgeSelect::Relation, fuel);
            &&& has_head(g, node) ==> w.len() > 0
            &&& w.len() == 0 ==> !has_head(g, node)
            &&& w.len() > 0 ==> !has_head(g, w.last())
        }),
    decreases fuel,
{
    let edges = graph_edges(g);
    match head_of(g, node) {
        Some(h) => {
            assert(depth(h) < depth(node));
            lemma_walk_reaches_root(g, h, depth, (fuel - 1) as nat);
            let rest = walk(edges, h, EdgeDirection::Incoming, EdgeSelect::Relation, (fuel - 1) as nat);
            let w = walk(edges, node, EdgeDirection::Incoming, EdgeSelect::Relation, fuel);
            assert(w == seq![h] + rest);
            if rest.len() > 0 {
                assert(w.last() == rest.last());
            } else {
                assert(w.last() == h);
            }
        },
        None => {},
    }
}

/// The walk from a node towards the root never takes more steps than the
/// graph has nodes; where the heads form no cycle (some depth, below the node
/// count, falls from every node to its head), the walk from a node with a
/// head is not empty and ends at a root.
pub proof fn lemma_ancestors_end_at_root(g: DependencyGraph, node: nat, depth: spec_fn(nat) -> nat)
    requires
        forall|v: nat| v < graph_nodes(g).len() ==> #[trigger] depth(v) < graph_nodes(g).len(),
        forall|v: nat, h: nat| head_of(g, v) == Some(h) ==> #[trigger] depth(h) < #[trigger] depth(v),
        node < graph_nodes(g).len(),
    ensures
        ancestors_spec(g, node).len() <= graph_nodes(g).len(),
        has_head(g, node) ==> ancestors_spec(g, node).len() > 0,
        ancestors_spec(g, node).len() > 0 ==> !has_head(g, ancestors_spec(g, node).last()),
{
    lemma_walk_len(graph_edges(g), node, EdgeDirection::Incoming, EdgeSelect::Relation, graph_nodes(g).len());
    lemma_walk_reaches_root(g, node, depth, graph_nodes(g).len());
}

/// The token's head in the chosen analysis as a node, if it is not the root.
pub open spec fn token_head(t: Token, projective: bool) -> Option<nat> {
    match t.head_in(projective) {
        Some(h) => if h != 0 {
            Some((h - 1) as nat)
        } else {
            None
        },
        None => None,
    }
}

proof fn lemma_built_steps(sentence: Seq<Token>, projective: bool, k: nat, node: nat)
    requires
        k <= sentence.len(),
    ensures
        first_match(built_edges(sentence, projective, k), node, EdgeDirection::Outgoing, EdgeSelect::Precedence)
            == if node + 1 < k {
            Some(node + 1)
        } else {
            None::<nat>
        },
        first_match(built_edges(sentence, projective, k), node, EdgeDirection::Incoming, EdgeSelect::Precedence)
            == if 0 < node < k {
            Some((node - 1) as nat)
        } else {
            None::<nat>
        },
        first_match(built_edges(sentence, projective, k), node, EdgeDirection::Incoming, EdgeSelect::Relation)
            == if node < k {
            token_head(sentence[node as int], projective)
        } else {
            None::<nat>
        },
    decreases k,
{
    if k > 0 {
        let i = (k - 1) as nat;
        lemma_built_steps(sentence, projective, i, node);
        let before = built_edges(sentence, projective, i);
        let pe: EdgeModel = ((i - 1) as nat, i, None);
        let with_prec = if i > 0 {
            before.push(pe)
        } else {
            before
        };
        if i > 0 {
            lemma_first_match_push(before, pe, node, EdgeDirection::Outgoing, EdgeSelect::Precedence);
            lemma_first_match_push(before, pe, node, EdgeDirection::Incoming, EdgeSelect::Precedence);
            lemma_first_match_push(before, pe, node, EdgeDirection::Incoming, EdgeSelect::Relation);
        }
        match sentence[i as int].head_in(projective) {
            Some(h) => {
                if h != 0 {
                    let re: EdgeModel = ((h - 1) as nat, i, Some(sentence[i as int].rel_in(projective)));
                    lemma_first_match_push(with_prec, re, node, EdgeDirection::Outgoing, EdgeSelect::Precedence);
                    lemma_first_match_push(with_prec, re, node, EdgeDirection::Incoming, EdgeSelect::Precedence);
                    lemma_first_match_push(with_prec, re, node, EdgeDirection::Incoming, EdgeSelect::Relation);
                }
            },
            None => {},
        }
    }
}

proof fn lemma_walk_forward(g: DependencyGraph, n: nat, node: nat, fuel: nat)
    requires
        forall|v: nat|
            #![trigger first_match(graph_edges(g), v, EdgeDirection::Outgoing, EdgeSelect::Precedence)]
            first_match(graph_edges(g), v, EdgeDirection::Outgoing, EdgeSelect::Precedence) == if v + 1 < n {
                Some(v + 1)
            } else {
                None::<nat>
            },
        node < n,
        fuel + node + 1 >= n,
    ensures
        walk(graph_edges(g), node, EdgeDirection::Outgoing, EdgeSelect::Precedence, fuel) =~= Seq::new(
            (n - node - 1) as nat,
            |j: int| (node + 1 + j) as nat,
        ),
    decreases fuel,
{
    if fuel > 0 && node + 1 < n {
        lemma_walk_forward(g, n, node + 1, (fuel - 1) as nat);
    }
}

proof fn lemma_walk_backward(g: DependencyGraph, n: nat, node: nat, fuel: nat)
    requires
        forall|v: nat|
            #![trigger first_match(graph_edges(g), v, EdgeDirection::Incoming, EdgeSelect::Precedence)]
            first_match(graph_edges(g), v, EdgeDirection::Incoming, EdgeSelect::Precedence) == if 0 < v < n {
                Some((v - 1) as nat)
            } else {
                None::<nat>
            },
        node < n,
        fuel >= node,
    ensures
        walk(graph_edges(g), node, EdgeDirection::Incoming, EdgeSelect::Precedence, fuel) =~= Seq::new(
            node,
            |j: int| (node - 1 - j) as nat,
        ),
    decreases fuel,
{
    if fuel > 0 && node > 0 {
        lemma_walk_backward(g, n, (node - 1) as nat, (fuel - 1) as nat);
    }
}

/// On the graph of a sentence, the tokens that follow node `i` are
/// `i + 1, ..., n - 1` and those that precede it are `i - 1, ..., 0`; the
/// step towards the root leads to the token's head.
pub proof fn lemma_sentence_graph_order(g: DependencyGraph, sentence: Seq<Token>, projective: bool, i: nat)
    requires
        is_graph_of(g, sentence, projective),
        i < sentence.len(),
    ensures
        adjacent_spec(g, i, Direction::Succeeding) == Seq::new(
            (sentence.len() - i - 1) as nat,
            |j: int| (i + 1 + j) as nat,
        ),
        adjacent_spec(g, i, Direction::Preceeding) == Seq::new(i, |j: int| (i - 1 - j) as nat),
        head_of(g, i) == token_head(sentence[i as int], projective),
{
    let n = sentence.len();
    assert(graph_nodes(g).len() == n);
    assert forall|v: nat| true implies #[trigger] first_match(
        graph_edges(g),
        v,
        EdgeDirection::Outgoing,
        EdgeSelect::Precedence,
    ) == (if v + 1 < n {
        Some(v + 1)
    } else {
        None::<nat>
    }) by {
        lemma_built_steps(sentence, projective, n, v);
    }
    assert forall|v: nat| true implies #[trigger] first_match(
        graph_edges(g),
        v,
        EdgeDirection::Incoming,
        EdgeSelect::Precedence,
    ) == (if 0 < v < n {
        Some((v - 1) as nat)
    } else {
        None::<nat>
    }) by {
        lemma_built_steps(sentence, projective, n, v);
    }
    lemma_built_steps(sentence, projective, n, i);
    lemma_walk_forward(g, n, i, n);
    lemma_walk_backward(g, n, i, n);
}

} // verus!
