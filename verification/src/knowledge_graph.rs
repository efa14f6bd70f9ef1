//! The player's knowledge graph: every known concept is a node, every
//! observed relationship between two concepts an edge, stored in a
//! `petgraph` directed graph. Relationships are read in both directions.
//!
//! Confidence values are floating point; the graph carries them as bit
//! patterns and leaves their arithmetic to the caller, which learns from
//! [`KnowledgeGraph::relate`] which existing edge a repeated observation
//! strengthens.

use vstd::prelude::*;
use petgraph::graph::{EdgeIndex, Graph, NodeIndex};
use petgraph::visit::EdgeRef;
use petgraph::Direction;

use crate::journal::ObservationCategory;
use crate::text::{lemma_seq_lt_total, lemma_seq_lt_transitive, seq_lt, str_eq, str_lt};

verus! {

// ── petgraph ──────────────────────────────────────────────────────────────

/// `petgraph::graph::Graph`, opaque: what a graph holds is read through
/// `graph_nodes` and `graph_edges`.
#[verifier::external_type_specification]
#[verifier::external_body]
#[verifier::reject_recursive_types(N)]
#[verifier::reject_recursive_types(E)]
#[verifier::reject_recursive_types(Ty)]
#[verifier::reject_recursive_types(Ix)]
pub struct ExGraph<N, E, Ty, Ix>(Graph<N, E, Ty, Ix>);

/// `petgraph::Directed`, the edge type of the graph.
#[verifier::external_type_specification]
#[verifier::external_body]
pub struct ExDirected(petgraph::Directed);

/// What a graph holds: its nodes, by node index, as plain values. The
/// wrappers below state what each `Graph` method the graph calls does to it.
pub uninterp spec fn graph_nodes(g: Graph<ConceptNode, ConceptEdge>) -> Seq<NodeView>;

/// The edges of a graph, by edge index: source, target and weight.
pub uninterp spec fn graph_edges(g: Graph<ConceptNode, ConceptEdge>) -> Seq<(u32, u32, ConceptEdge)>;

/// `Graph::new`: a graph without nodes or edges.
#[verifier::external_body]
fn graph_new() -> (g: Graph<ConceptNode, ConceptEdge>)
    ensures
        graph_nodes(g) == Seq::<NodeView>::empty(),
        graph_edges(g) == Seq::<(u32, u32, ConceptEdge)>::empty(),
{
    Graph::new()
}

/// `Graph::add_node`: appends a node and returns its index, the former node
/// count. It panics once the count has reached `u32::MAX`, which the
/// `requires` excludes.
#[verifier::external_body]
fn graph_add_node(g: &mut Graph<ConceptNode, ConceptEdge>, n: ConceptNode) -> (i: u32)
    requires
        graph_nodes(*old(g)).len() < u32::MAX,
    ensures
        i == graph_nodes(*old(g)).len(),
        graph_nodes(*final(g)) == graph_nodes(*old(g)).push(n@),
        graph_edges(*final(g)) == graph_edges(*old(g)),
{
    g.add_node(n).index() as u32
}

/// `Graph::add_edge`: appends an edge from `a` to `b` and returns its
/// index, the former edge count. It panics when either node does not
/// exist or the edge count has reached `u32::MAX`, which the `requires`
/// excludes.
#[verifier::external_body]
fn graph_add_edge(g: &mut Graph<ConceptNode, ConceptEdge>, a: u32, b: u32, e: ConceptEdge) -> (k: u32)
    requires
        a < graph_nodes(*old(g)).len(),
        b < graph_nodes(*old(g)).len(),
        graph_edges(*old(g)).len() < u32::MAX,
    ensures
        k == graph_edges(*old(g)).len(),
        graph_edges(*final(g)) == graph_edges(*old(g)).push((a, b, e)),
        graph_nodes(*final(g)) == graph_nodes(*old(g)),
{
    g.add_edge(NodeIndex::new(a as usize), NodeIndex::new(b as usize), e).index() as u32
}

/// `Graph::node_count`.
#[verifier::external_body]
fn graph_node_count(g: &Graph<ConceptNode, ConceptEdge>) -> (n: usize)
    ensures
        n == graph_nodes(*g).len(),
{
    g.node_count()
}

/// `Graph::edge_count`.
#[verifier::external_body]
fn graph_edge_count(g: &Graph<ConceptNode, ConceptEdge>) -> (n: usize)
    ensures
        n == graph_edges(*g).len(),
{
    g.edge_count()
}

/// `Index<NodeIndex>` on a graph: the weight of node `i`, which must exist.
#[verifier::external_body]
fn graph_node(g: &Graph<ConceptNode, ConceptEdge>, i: u32) -> (n: &ConceptNode)
    requires
        i < graph_nodes(*g).len(),
    ensures
        n@ == graph_nodes(*g)[i as int],
{
    &g[NodeIndex::new(i as usize)]
}

/// `IndexMut<NodeIndex>` on a graph: replaces the weight of node `i`, which
/// must exist.
#[verifier::external_body]
fn graph_set_node(g: &mut Graph<ConceptNode, ConceptEdge>, i: u32, n: ConceptNode)
    requires
        i < graph_nodes(*old(g)).len(),
    ensures
        graph_nodes(*final(g)) == graph_nodes(*old(g)).update(i as int, n@),
        graph_edges(*final(g)) == graph_edges(*old(g)),
{
    g[NodeIndex::new(i as usize)] = n;
}

/// `IndexMut<EdgeIndex>` on a graph: replaces the weight of edge `k`, which
/// must exist; its endpoints stay.
#[verifier::external_body]
fn graph_set_edge(g: &mut Graph<ConceptNode, ConceptEdge>, k: u32, e: ConceptEdge)
    requires
        k < graph_edges(*old(g)).len(),
    ensures
        graph_edges(*final(g)) == graph_edges(*old(g)).update(
            k as int,
            (graph_edges(*old(g))[k as int].0, graph_edges(*old(g))[k as int].1, e),
        ),
        graph_nodes(*final(g)) == graph_nodes(*old(g)),
{
    g[EdgeIndex::new(k as usize)] = e;
}

/// `Graph::raw_edges`: source, target and weight of edge `k`, which must
/// exist.
#[verifier::external_body]
fn graph_edge(g: &Graph<ConceptNode, ConceptEdge>, k: u32) -> (r: (u32, u32, ConceptEdge))
    requires
        k < graph_edges(*g).len(),
    ensures
        r == graph_edges(*g)[k as int],
{
    let e = &g.raw_edges()[k as usize];
    (e.source().index() as u32, e.target().index() as u32, e.weight)
}

/// `Graph::edges_directed` with `Outgoing`: index, target and weight of
/// every edge leaving `a`. For a directed graph petgraph documents the
/// order as the reverse of the order of addition, newest first.
#[verifier::external_body]
fn graph_outgoing(g: &Graph<ConceptNode, ConceptEdge>, a: u32) -> (r: Vec<(u32, u32, ConceptEdge)>)
    ensures
        r@ == incident(graph_edges(*g), a, true, graph_edges(*g).len() as int),
{
    let mut r = Vec::new();
    for e in g.edges_directed(NodeIndex::new(a as usize), Direction::Outgoing) {
        r.push((e.id().index() as u32, e.target().index() as u32, *e.weight()));
    }
    r
}

/// `Graph::edges_directed` with `Incoming`: index, source and weight of
/// every edge entering `a`, newest first as for outgoing edges.
#[verifier::external_body]
fn graph_incoming(g: &Graph<ConceptNode, ConceptEdge>, a: u32) -> (r: Vec<(u32, u32, ConceptEdge)>)
    ensures
        r@ == incident(graph_edges(*g), a, false, graph_edges(*g).len() as int),
{
    let mut r = Vec::new();
    for e in g.edges_directed(NodeIndex::new(a as usize), Direction::Incoming) {
        r.push((e.id().index() as u32, e.source().index() as u32, *e.weight()));
    }
    r
}

/// The edges among the first `n` that leave `a` (`out`) or enter it, newest
/// first, each as its index, its other endpoint and its weight.
pub open spec fn incident(edges: Seq<(u32, u32, ConceptEdge)>, a: u32, out: bool, n: int) -> Seq<(u32, u32, ConceptEdge)>
    decreases n,
{
    if n <= 0 {
        Seq::empty()
    } else {
        let e = edges[n - 1];
        let rest = incident(edges, a, out, n - 1);
        if out && e.0 == a {
            seq![((n - 1) as u32, e.1, e.2)] + rest
        } else if !out && e.1 == a {
            seq![((n - 1) as u32, e.0, e.2)] + rest
        } else {
            rest
        }
    }
}

proof fn lemma_incident(edges: Seq<(u32, u32, ConceptEdge)>, a: u32, out: bool, n: int)
    requires
        0 <= n <= edges.len(),
        n <= u32::MAX,
    ensures
        forall|i: int| 0 <= i < incident(edges, a, out, n).len() ==> {
            let t = #[trigger] incident(edges, a, out, n)[i];
            &&& t.0 < n
            &&& out ==> edges[t.0 as int].0 == a && t.1 == edges[t.0 as int].1
            &&& !out ==> edges[t.0 as int].1 == a && t.1 == edges[t.0 as int].0
            &&& t.2 == edges[t.0 as int].2
        },
        forall|k: int| 0 <= k < n && (if out { (#[trigger] edges[k]).0 == a } else { edges[k].1 == a })
            ==> exists|i: int| 0 <= i < incident(edges, a, out, n).len() && incident(edges, a, out, n)[i].0 == k,
    decreases n,
{
    if n > 0 {
        lemma_incident(edges, a, out, n - 1);
        let rest = incident(edges, a, out, n - 1);
        let cur = incident(edges, a, out, n);
        let e = edges[n - 1];
        if (out && e.0 == a) || (!out && e.1 == a) {
            assert forall|i: int| 1 <= i < cur.len() implies cur[i] == rest[i - 1] by {}
            assert forall|k: int| 0 <= k < n && (if out { (#[trigger] edges[k]).0 == a } else { edges[k].1 == a })
                implies exists|i: int| 0 <= i < cur.len() && cur[i].0 == k by {
                if k == n - 1 {
                    assert(cur[0].0 == k);
                } else {
                    let i = choose|i: int| 0 <= i < rest.len() && rest[i].0 == k;
                    assert(cur[i + 1].0 == k);
                }
            }
        }
    }
}

// ── Concepts ──────────────────────────────────────────────────────────────

/// What a concept is.
#[derive(Clone, Copy, Debug, PartialEq, Eq, Structural, Hash)]
pub enum ConceptKey {
    /// A material, with the planet it was observed on when known.
    Material {
        /// Material seed.
        seed: u64,
        /// Planet seed, if recorded.
        planet_seed: Option<u64>,
    },
    /// A material known by its seed alone (as a fabrication input).
    MaterialInstance {
        /// Material seed.
        seed: u64,
    },
    /// A fabricated output.
    Fabrication {
        /// Seed of the output material.
        output_seed: u64,
    },
    /// A planet.
    Location {
        /// Planet seed.
        planet_seed: u64,
    },
}

/// Identity of a concept node.
#[derive(Clone, Copy, Debug, PartialEq, Eq, Structural, Hash)]
pub struct ConceptId(pub ConceptKey);

/// Coarse classification of concepts.
#[derive(Clone, Copy, Debug, PartialEq, Eq, Structural, Hash)]
pub enum ConceptCategory {
    /// A raw or discovered material.
    Material,
    /// A planet or region.
    Location,
    /// A fabrication output.
    Fabrication,
}

/// The category a key belongs to.
pub open spec fn category_spec(k: ConceptKey) -> ConceptCategory {
    match k {
        ConceptKey::Material { .. } => ConceptCategory::Material,
        ConceptKey::MaterialInstance { .. } => ConceptCategory::Material,
        ConceptKey::Fabrication { .. } => ConceptCategory::Fabrication,
        ConceptKey::Location { .. } => ConceptCategory::Location,
    }
}

/// The category a key belongs to.
pub fn category_from_key(k: &ConceptKey) -> (c: ConceptCategory)
    ensures
        c == category_spec(*k),
{
    match k {
        ConceptKey::Material { .. } => ConceptCategory::Material,
        ConceptKey::MaterialInstance { .. } => ConceptCategory::Material,
        ConceptKey::Fabrication { .. } => ConceptCategory::Fabrication,
        ConceptKey::Location { .. } => ConceptCategory::Location,
    }
}

/// Kinds of relationship between concepts.
#[derive(Clone, Copy, Debug, PartialEq, Eq, Structural, Hash)]
pub enum RelationshipType {
    /// A material was found on a location.
    FoundOn,
    /// Two materials were combined.
    CombinedWith,
    /// An output was made from an input.
    DerivedFrom,
    /// Two materials have similar properties.
    SimilarTo,
    /// An observation was made at a location.
    ObservedAt,
}

impl RelationshipType {
    /// The label shown before a cross-reference.
    pub fn display_label(&self) -> (s: &'static str)
        ensures
            *self == RelationshipType::FoundOn ==> s@ == "Found on"@,
            *self == RelationshipType::CombinedWith ==> s@ == "Combined with"@,
            *self == RelationshipType::DerivedFrom ==> s@ == "Derived from"@,
            *self == RelationshipType::SimilarTo ==> s@ == "Similar to"@,
            *self == RelationshipType::ObservedAt ==> s@ == "Observed at"@,
    {
        match self {
            RelationshipType::FoundOn => "Found on",
            RelationshipType::CombinedWith => "Combined with",
            RelationshipType::DerivedFrom => "Derived from",
            RelationshipType::SimilarTo => "Similar to",
            RelationshipType::ObservedAt => "Observed at",
        }
    }
}

/// A known concept.
#[derive(Clone, Debug)]
pub struct ConceptNode {
    /// Identity.
    pub id: ConceptId,
    /// Classification.
    pub category: ConceptCategory,
    /// Display name; empty until the first named observation.
    pub name: String,
    /// Bit pattern of the overall confidence.
    pub confidence_bits: u32,
    /// Tick of the first encounter.
    pub first_observed_at: u64,
    /// Tick of the latest observation.
    pub last_updated_at: u64,
    /// Planet of the first planet-bound observation.
    pub origin_planet_seed: Option<u64>,
    /// Every observation recorded about the concept, in the order recorded;
    /// one per category and description.
    pub observations: Vec<NodeObservation>,
}

/// One observation recorded on a concept.
#[derive(Clone, Debug)]
pub struct NodeObservation {
    /// Kind of observation.
    pub category: ObservationCategory,
    /// The wording shown.
    pub description: String,
    /// Bit pattern of its confidence.
    pub confidence_bits: u32,
    /// Tick at which it was first recorded.
    pub recorded_at: u64,
}

/// An observation as plain values.
pub struct ObsView {
    /// Kind of observation.
    pub category: ObservationCategory,
    /// The wording shown.
    pub description: Seq<char>,
    /// Bit pattern of its confidence.
    pub confidence_bits: u32,
    /// Tick at which it was first recorded.
    pub recorded_at: u64,
}

impl View for NodeObservation {
    type V = ObsView;

    open spec fn view(&self) -> ObsView {
        ObsView {
            category: self.category,
            description: self.description@,
            confidence_bits: self.confidence_bits,
            recorded_at: self.recorded_at,
        }
    }
}

/// The observations of one category, in the order recorded.
pub open spec fn obs_in(os: Seq<ObsView>, category: ObservationCategory) -> Seq<ObsView>
    decreases os.len(),
{
    if os.len() == 0 {
        Seq::empty()
    } else {
        let r = obs_in(os.drop_last(), category);
        if os.last().category == category { r.push(os.last()) } else { r }
    }
}

/// The views of a list of observations.
pub open spec fn obs_views(s: Seq<NodeObservation>) -> Seq<ObsView> {
    s.map_values(|o: NodeObservation| o@)
}

impl ConceptNode {
    /// How many observations are recorded on the concept.
    pub fn observation_count(&self) -> (n: usize)
        ensures
            n == self@.observations.len(),
    {
        self.observations.len()
    }

    /// The observations of one category, in the order recorded.
    pub fn observations_by_category(&self, category: ObservationCategory) -> (r: Vec<NodeObservation>)
        ensures
            obs_views(r@) == obs_in(self@.observations, category),
    {
        let mut r: Vec<NodeObservation> = Vec::new();
        let mut i: usize = 0;
        while i < self.observations.len()
            invariant
                i <= self.observations@.len(),
                obs_views(r@) == obs_in(obs_views(self.observations@).take(i as int), category),
            decreases self.observations@.len() - i,
        {
            let o = &self.observations[i];
            let ghost os = obs_views(self.observations@);
            proof {
                assert(os.take(i + 1).drop_last() =~= os.take(i as int));
                assert(os.take(i + 1).last() == o@);
            }
            if o.category == category {
                let ghost r0 = r@;
                r.push(NodeObservation {
                    category: o.category,
                    description: o.description.clone(),
                    confidence_bits: o.confidence_bits,
                    recorded_at: o.recorded_at,
                });
                assert(obs_views(r@) =~= obs_views(r0).push(o@));
            }
            i = i + 1;
        }
        assert(obs_views(self.observations@).take(self.observations@.len() as int) =~= obs_views(self.observations@));
        r
    }

    /// A node for `key`, named `name`, with the initial confidence, first
    /// and last observed at `tick`, with no planet.
    pub fn new(key: ConceptKey, name: &str, tick: u64) -> (n: ConceptNode)
        ensures
            n@ == (NodeView { name: name@, ..fresh_node(ConceptId(key), category_spec(key), tick) }),
    {
        let n = ConceptNode {
            id: ConceptId(key),
            category: category_from_key(&key),
            name: name.to_owned(),
            confidence_bits: INITIAL_CONFIDENCE_BITS,
            first_observed_at: tick,
            last_updated_at: tick,
            origin_planet_seed: None,
            observations: Vec::new(),
        };
        assert(obs_views(n.observations@) =~= Seq::<ObsView>::empty());
        n
    }
}

/// A concept node as plain values.
pub struct NodeView {
    /// Identity.
    pub id: ConceptId,
    /// Classification.
    pub category: ConceptCategory,
    /// Display name.
    pub name: Seq<char>,
    /// Bit pattern of the overall confidence.
    pub confidence_bits: u32,
    /// Tick of the first encounter.
    pub first_observed_at: u64,
    /// Tick of the latest observation.
    pub last_updated_at: u64,
    /// Planet of the first planet-bound observation.
    pub origin_planet_seed: Option<u64>,
    /// Observations, in the order recorded.
    pub observations: Seq<ObsView>,
}

impl View for ConceptNode {
    type V = NodeView;

    open spec fn view(&self) -> NodeView {
        NodeView {
            id: self.id,
            category: self.category,
            name: self.name@,
            confidence_bits: self.confidence_bits,
            first_observed_at: self.first_observed_at,
            last_updated_at: self.last_updated_at,
            origin_planet_seed: self.origin_planet_seed,
            observations: obs_views(self.observations@),
        }
    }
}

/// The confidence a fresh concept starts with (0.3 as an `f32`).
pub const INITIAL_CONFIDENCE_BITS: u32 = 0x3E99_999Au32;

/// The confidence of a directly observed relationship (1.0 as an `f32`).
pub const FULL_CONFIDENCE_BITS: u32 = 0x3F80_0000u32;

/// A relationship between two concepts.
#[derive(Clone, Copy, Debug, PartialEq, Eq, Structural)]
pub struct ConceptEdge {
    /// Kind of relationship.
    pub relationship: RelationshipType,
    /// Bit pattern of the relationship's confidence.
    pub confidence_bits: u32,
    /// Tick of discovery.
    pub discovered_at: u64,
}

/// The graph as plain values: its nodes by index, its edges by index.
pub struct KGView {
    /// Nodes, by node index.
    pub nodes: Seq<NodeView>,
    /// Edges as source, target and weight, by edge index.
    pub edges: Seq<(u32, u32, ConceptEdge)>,
}

/// A fresh, unnamed node.
pub open spec fn fresh_node(id: ConceptId, category: ConceptCategory, tick: u64) -> NodeView {
    NodeView {
        id,
        category,
        name: Seq::empty(),
        confidence_bits: INITIAL_CONFIDENCE_BITS,
        first_observed_at: tick,
        last_updated_at: tick,
        origin_planet_seed: None,
        observations: Seq::empty(),
    }
}

impl KGView {
    /// The view with a fresh node for `id` appended.
    pub open spec fn with_node(self, id: ConceptId, category: ConceptCategory, tick: u64) -> KGView {
        KGView { nodes: self.nodes.push(fresh_node(id, category, tick)), edges: self.edges }
    }
}

/// Index of the first node, from `i` on, whose id is `id`.
pub open spec fn find_from(nodes: Seq<NodeView>, id: ConceptId, i: int) -> Option<int>
    decreases nodes.len() - i,
{
    if i < 0 || i >= nodes.len() {
        None
    } else if nodes[i].id == id {
        Some(i)
    } else {
        find_from(nodes, id, i + 1)
    }
}

/// The node index of `id` in a view, if present.
pub open spec fn lookup_in(v: KGView, id: ConceptId) -> Option<u32> {
    match find_from(v.nodes, id, 0) {
        Some(j) => Some(j as u32),
        None => None,
    }
}

/// Edge `e` goes from `from` to `to` and is of kind `r`.
pub open spec fn same_link(e: (u32, u32, ConceptEdge), from: u32, to: u32, r: RelationshipType) -> bool {
    e.0 == from && e.1 == to && e.2.relationship == r
}

/// Some edge goes from `from` to `to` and is of kind `r`.
pub open spec fn link_exists(v: KGView, from: u32, to: u32, r: RelationshipType) -> bool {
    exists|k: int| 0 <= k < v.edges.len() && same_link(#[trigger] v.edges[k], from, to, r)
}

/// `b` keeps every node and every edge of `a` at its index.
pub open spec fn grows(a: KGView, b: KGView) -> bool {
    &&& a.nodes.len() <= b.nodes.len()
    &&& forall|j: int| 0 <= j < a.nodes.len() ==> #[trigger] b.nodes[j] == a.nodes[j]
    &&& a.edges.len() <= b.edges.len()
    &&& forall|k: int| 0 <= k < a.edges.len() ==> #[trigger] b.edges[k] == a.edges[k]
}

proof fn lemma_find_from(nodes: Seq<NodeView>, id: ConceptId, i: int)
    requires
        0 <= i,
    ensures
        find_from(nodes, id, i) matches Some(j) ==> i <= j < nodes.len() && nodes[j].id == id
            && forall|k: int| i <= k < j ==> nodes[k].id != id,
        find_from(nodes, id, i) is None ==> forall|k: int| i <= k < nodes.len() ==> nodes[k].id != id,
    decreases nodes.len() - i,
{
    if i < nodes.len() && nodes[i].id != id {
        lemma_find_from(nodes, id, i + 1);
    }
}

/// A node found in `a` is found at the same index in any `b` that grows
/// from it.
proof fn lemma_lookup_grows(a: KGView, b: KGView, id: ConceptId)
    requires
        grows(a, b),
        lookup_in(a, id) is Some,
    ensures
        lookup_in(b, id) == lookup_in(a, id),
{
    lemma_find_from(a.nodes, id, 0);
    lemma_find_from(b.nodes, id, 0);
    let j = find_from(a.nodes, id, 0)->0;
    assert(b.nodes[j] == a.nodes[j]);
    if let Some(jb) = find_from(b.nodes, id, 0) {
        if jb < j {
            assert(b.nodes[jb] == a.nodes[jb]);
        }
    }
}

/// A link of `a` is a link of any `b` that grows from it.
proof fn lemma_link_grows(a: KGView, b: KGView, from: u32, to: u32, r: RelationshipType)
    requires
        grows(a, b),
        link_exists(a, from, to, r),
    ensures
        link_exists(b, from, to, r),
{
    let k = choose|k: int| 0 <= k < a.edges.len() && same_link(#[trigger] a.edges[k], from, to, r);
    assert(b.edges[k] == a.edges[k]);
}

/// What a call of [`KnowledgeGraph::relate`] did.
#[derive(Clone, Copy, Debug, PartialEq, Eq, Structural)]
pub enum RelateOutcome {
    /// A new edge was added at this index.
    Added(u32),
    /// An edge of the same kind already joined the two nodes, at this
    /// index; it was left as it was, for the caller to strengthen.
    Existing(u32),
}

/// Edge `e` joins `a` and `b`, in either direction.
pub open spec fn joins(e: (u32, u32, ConceptEdge), a: int, b: int) -> bool {
    (e.0 == a && e.1 == b) || (e.0 == b && e.1 == a)
}

/// Some edge joins `a` and `b`, in either direction.
pub open spec fn adjacent(v: KGView, a: int, b: int) -> bool {
    exists|k: int| 0 <= k < v.edges.len() && #[trigger] joins(v.edges[k], a, b)
}

/// `x` can be reached from `c` in at most `d` hops, edges taken in either
/// direction.
pub open spec fn within(v: KGView, c: int, x: int, d: nat) -> bool
    decreases d,
{
    if d == 0 {
        x == c
    } else {
        within(v, c, x, (d - 1) as nat) || exists|u: int|
            0 <= u < v.nodes.len() && within(v, c, u, (d - 1) as nat) && #[trigger] adjacent(v, u, x)
    }
}

/// The fewest hops from `c` to `x` are `d`.
pub open spec fn hop_distance_is(v: KGView, c: int, x: int, d: nat) -> bool {
    within(v, c, x, d) && (d == 0 || !within(v, c, x, (d - 1) as nat))
}

/// Every edge joins nodes of the graph.
pub open spec fn edges_in_range(v: KGView) -> bool {
    forall|k: int| 0 <= k < v.edges.len() ==> (#[trigger] v.edges[k]).0 < v.nodes.len() && v.edges[k].1 < v.nodes.len()
}

/// Node `x` passes the category filter.
pub open spec fn category_ok(v: KGView, x: int, filter: Option<ConceptCategory>) -> bool {
    match filter {
        None => true,
        Some(cat) => v.nodes[x].category == cat,
    }
}

proof fn lemma_within_mono(v: KGView, c: int, x: int, j: nat, d: nat)
    requires
        j <= d,
        within(v, c, x, j),
    ensures
        within(v, c, x, d),
    decreases d,
{
    if j < d {
        lemma_within_mono(v, c, x, j, (d - 1) as nat);
    }
}

proof fn lemma_hop_exists(v: KGView, c: int, x: int, d: nat)
    requires
        within(v, c, x, d),
    ensures
        exists|j: nat| j <= d && #[trigger] hop_distance_is(v, c, x, j),
    decreases d,
{
    if d > 0 && within(v, c, x, (d - 1) as nat) {
        lemma_hop_exists(v, c, x, (d - 1) as nat);
        let j = choose|j: nat| j <= (d - 1) as nat && #[trigger] hop_distance_is(v, c, x, j);
        assert(hop_distance_is(v, c, x, j));
    } else {
        assert(hop_distance_is(v, c, x, d));
    }
}

/// A node at some distance is a node of the graph, when the start is.
proof fn lemma_hop_range(v: KGView, c: int, x: int, j: nat)
    requires
        within(v, c, x, j),
        edges_in_range(v),
        0 <= c < v.nodes.len(),
    ensures
        0 <= x < v.nodes.len(),
    decreases j,
{
    if j > 0 {
        if within(v, c, x, (j - 1) as nat) {
            lemma_hop_range(v, c, x, (j - 1) as nat);
        } else {
            let u = choose|u: int| 0 <= u < v.nodes.len() && within(v, c, u, (j - 1) as nat) && #[trigger] adjacent(v, u, x);
            let k = choose|k: int| 0 <= k < v.edges.len() && #[trigger] joins(v.edges[k], u, x);
            assert(v.edges[k].0 < v.nodes.len());
        }
    }
}

/// The neighbours of `u` in relationship order: the other ends of its
/// outgoing edges, newest first, then of its incoming edges, newest first.
pub open spec fn neighbours(v: KGView, u: u32) -> Seq<u32> {
    (incident(v.edges, u, true, v.edges.len() as int) + incident(v.edges, u, false, v.edges.len() as int)).map_values(
        |t: (u32, u32, ConceptEdge)| t.1,
    )
}

/// `acc` followed by the nodes of `ns`, in order, that are neither in
/// `seen` nor already listed.
pub open spec fn add_unseen(acc: Seq<u32>, seen: Seq<u32>, ns: Seq<u32>) -> Seq<u32>
    decreases ns.len(),
{
    if ns.len() == 0 {
        acc
    } else {
        let a = add_unseen(acc, seen, ns.drop_last());
        let w = ns.last();
        if seen.contains(w) || a.contains(w) {
            a
        } else {
            a.push(w)
        }
    }
}

/// The next breadth-first level: for each node of `level` in turn, its
/// neighbours that were not seen before, each the first time it is met.
pub open spec fn expand(v: KGView, seen: Seq<u32>, level: Seq<u32>) -> Seq<u32>
    decreases level.len(),
{
    if level.len() == 0 {
        Seq::empty()
    } else {
        add_unseen(expand(v, seen, level.drop_last()), seen, neighbours(v, level.last()))
    }
}

/// Breadth-first search from `c` after `d` levels: the nodes seen so far,
/// and the nodes of level `d`, in discovery order.
pub open spec fn bfs(v: KGView, c: u32, d: nat) -> (Seq<u32>, Seq<u32>)
    decreases d,
{
    if d == 0 {
        (seq![c], seq![c])
    } else {
        let p = bfs(v, c, (d - 1) as nat);
        let nxt = expand(v, p.0, p.1);
        (p.0 + nxt, nxt)
    }
}

/// The nodes of `level` that pass the filter, in order, each with `d`.
pub open spec fn listed(v: KGView, level: Seq<u32>, d: usize, filter: Option<ConceptCategory>) -> Seq<(u32, usize)>
    decreases level.len(),
{
    if level.len() == 0 {
        Seq::empty()
    } else {
        let r = listed(v, level.drop_last(), d, filter);
        if category_ok(v, level.last() as int, filter) {
            r.push((level.last(), d))
        } else {
            r
        }
    }
}

/// What the neighbourhood search lists: the nodes of levels 1 to `d` in
/// discovery order, those that pass the filter, each with its level.
pub open spec fn bfs_listing(v: KGView, c: u32, d: nat, filter: Option<ConceptCategory>) -> Seq<(u32, usize)>
    decreases d,
{
    if d == 0 {
        Seq::empty()
    } else {
        bfs_listing(v, c, (d - 1) as nat, filter) + listed(v, bfs(v, c, d).1, d as usize, filter)
    }
}

/// `seen` marks, among the first `n` nodes, exactly those in `sn` or in
/// `next`.
pub open spec fn seen_matches(seen: Seq<bool>, sn: Seq<u32>, next: Seq<u32>, n: int) -> bool {
    forall|w: int| 0 <= w < n ==> (#[trigger] seen[w] <==> sn.contains(w as u32) || next.contains(w as u32))
}

proof fn lemma_seen_at(seen: Seq<bool>, sn: Seq<u32>, next: Seq<u32>, n: int, w: u32)
    requires
        seen_matches(seen, sn, next, n),
        (w as int) < n,
    ensures
        seen[w as int] == (sn.contains(w) || next.contains(w)),
{
    assert(seen[w as int] == (sn.contains((w as int) as u32) || next.contains((w as int) as u32)));
}

/// Visiting `w` keeps `seen` matching: a node not seen is marked and
/// appended, a seen one changes nothing.
proof fn lemma_visit_step(seen0: Seq<bool>, sn: Seq<u32>, before: Seq<u32>, n: int, w: u32, seen1: Seq<bool>, after: Seq<u32>)
    requires
        seen_matches(seen0, sn, before, n),
        (w as int) < n,
        n <= u32::MAX + 1,
        seen0.len() == n,
        seen0[w as int] ==> seen1 == seen0 && after == before,
        !seen0[w as int] ==> seen1 == seen0.update(w as int, true) && after == before.push(w),
    ensures
        seen_matches(seen1, sn, after, n),
{
    assert forall|y: int| 0 <= y < n implies (#[trigger] seen1[y] <==> sn.contains(y as u32) || after.contains(y as u32)) by {
        let x = y as u32;
        assert(x as int == y);
        lemma_seen_at(seen0, sn, before, n, x);
        lemma_seen_at(seen0, sn, before, n, w);
        if !seen0[w as int] {
            if after.contains(x) && !before.contains(x) {
                let t = choose|t: int| 0 <= t < after.len() && after[t] == x;
                if t < before.len() {
                    assert(before[t] == x);
                }
            }
            if before.contains(x) {
                let t = choose|t: int| 0 <= t < before.len() && before[t] == x;
                assert(after[t] == x);
            }
            if x == w {
                assert(after[before.len() as int] == x);
            }
        }
    }
}

proof fn lemma_seen_concat(seen: Seq<bool>, sn: Seq<u32>, next: Seq<u32>, n: int)
    requires
        seen_matches(seen, sn, next, n),
        n <= u32::MAX + 1,
    ensures
        seen_matches(seen, sn + next, Seq::empty(), n),
{
    assert forall|y: int| 0 <= y < n implies (#[trigger] seen[y] <==> (sn + next).contains(y as u32) || Seq::<u32>::empty().contains(y as u32)) by {
        let w = y as u32;
        assert(w as int == y);
        lemma_seen_at(seen, sn, next, n, w);
        let b = sn + next;
        if b.contains(w) {
            let t = choose|t: int| 0 <= t < b.len() && b[t] == w;
            if t < sn.len() {
                assert(sn[t] == w);
            } else {
                assert(next[t - sn.len()] == w);
            }
        }
        if sn.contains(w) {
            let t = choose|t: int| 0 <= t < sn.len() && sn[t] == w;
            assert(b[t] == w);
        }
        if next.contains(w) {
            let t = choose|t: int| 0 <= t < next.len() && next[t] == w;
            assert(b[sn.len() + t] == w);
        }
    }
}

proof fn lemma_seen_start(seen: Seq<bool>, c: u32, n: int)
    requires
        seen.len() == n,
        n <= u32::MAX + 1,
        forall|x: int| 0 <= x < n ==> #[trigger] seen[x] == (x == c as int),
    ensures
        seen_matches(seen, seq![c], Seq::empty(), n),
{
    assert forall|y: int| 0 <= y < n implies (#[trigger] seen[y] <==> seq![c].contains(y as u32) || Seq::<u32>::empty().contains(y as u32)) by {
        let w = y as u32;
        assert(w as int == y);
        if seq![c].contains(w) {
            let t = choose|t: int| 0 <= t < 1 && seq![c][t] == w;
        }
        if w == c {
            assert(seq![c][0] == w);
        }
    }
}

/// Elements of `s` are pairwise distinct.
pub open spec fn distinct_u32(s: Seq<u32>) -> bool {
    forall|i: int, j: int| 0 <= i < j < s.len() ==> s[i] != s[j]
}

proof fn lemma_add_unseen(acc: Seq<u32>, seen: Seq<u32>, ns: Seq<u32>)
    ensures
        forall|w: u32| #[trigger] add_unseen(acc, seen, ns).contains(w) <==> acc.contains(w) || (ns.contains(w)
            && !seen.contains(w)),
        add_unseen(acc, seen, ns).len() >= acc.len(),
        add_unseen(acc, seen, ns).take(acc.len() as int) == acc,
        distinct_u32(acc) ==> distinct_u32(add_unseen(acc, seen, ns)),
    decreases ns.len(),
{
    if ns.len() == 0 {
        assert(acc.take(acc.len() as int) =~= acc);
    } else {
        let d = ns.drop_last();
        lemma_add_unseen(acc, seen, d);
        let a = add_unseen(acc, seen, d);
        let w = ns.last();
        assert forall|x: u32| ns.contains(x) <==> d.contains(x) || x == w by {
            if ns.contains(x) {
                let i = choose|i: int| 0 <= i < ns.len() && ns[i] == x;
                if i < ns.len() - 1 {
                    assert(d[i] == x);
                }
            }
            if d.contains(x) {
                let i = choose|i: int| 0 <= i < d.len() && d[i] == x;
                assert(ns[i] == x);
            }
            if x == w {
                assert(ns[ns.len() - 1] == x);
            }
        }
        if !(seen.contains(w) || a.contains(w)) {
            let r = a.push(w);
            assert forall|x: u32| #[trigger] r.contains(x) <==> a.contains(x) || x == w by {
                if r.contains(x) {
                    let i = choose|i: int| 0 <= i < r.len() && r[i] == x;
                    if i < a.len() {
                        assert(a[i] == x);
                    }
                }
                if a.contains(x) {
                    let i = choose|i: int| 0 <= i < a.len() && a[i] == x;
                    assert(r[i] == x);
                }
                if x == w {
                    assert(r[a.len() as int] == x);
                }
            }
            assert(r.take(acc.len() as int) =~= a.take(acc.len() as int));
            if distinct_u32(acc) {
                assert forall|i: int, j: int| 0 <= i < j < r.len() implies r[i] != r[j] by {
                    if j == a.len() {
                        assert(r[i] == a[i]);
                        assert(a.contains(a[i]));
                    } else {
                        assert(r[i] == a[i] && r[j] == a[j]);
                    }
                }
            }
        }
    }
}

proof fn lemma_expand(v: KGView, seen: Seq<u32>, level: Seq<u32>)
    ensures
        forall|w: u32| #[trigger] expand(v, seen, level).contains(w) <==> !seen.contains(w) && exists|i: int|
            0 <= i < level.len() && #[trigger] neighbours(v, level[i]).contains(w),
        distinct_u32(expand(v, seen, level)),
    decreases level.len(),
{
    if level.len() > 0 {
        let d = level.drop_last();
        lemma_expand(v, seen, d);
        let e = expand(v, seen, d);
        lemma_add_unseen(e, seen, neighbours(v, level.last()));
        assert forall|w: u32| #[trigger] expand(v, seen, level).contains(w) <==> !seen.contains(w) && exists|i: int|
            0 <= i < level.len() && #[trigger] neighbours(v, level[i]).contains(w) by {
            if expand(v, seen, level).contains(w) {
                if e.contains(w) {
                    let i = choose|i: int| 0 <= i < d.len() && #[trigger] neighbours(v, d[i]).contains(w);
                    assert(level[i] == d[i]);
                } else {
                    assert(neighbours(v, level[level.len() - 1]).contains(w));
                }
            }
            if !seen.contains(w) && exists|i: int| 0 <= i < level.len() && #[trigger] neighbours(v, level[i]).contains(w) {
                let i = choose|i: int| 0 <= i < level.len() && #[trigger] neighbours(v, level[i]).contains(w);
                if i < level.len() - 1 {
                    assert(d[i] == level[i]);
                    assert(neighbours(v, d[i]).contains(w));
                }
            }
        }
    } else {
        assert forall|i: int, j: int| 0 <= i < j < expand(v, seen, level).len() implies expand(v, seen, level)[i] != expand(v, seen, level)[j] by {}
    }
}

/// The neighbours of `u` are the nodes an edge joins it to.
proof fn lemma_neighbours(v: KGView, u: u32)
    requires
        v.edges.len() <= u32::MAX,
    ensures
        forall|w: u32| #[trigger] neighbours(v, u).contains(w) <==> adjacent(v, u as int, w as int),
{
    let n = v.edges.len() as int;
    lemma_incident(v.edges, u, true, n);
    lemma_incident(v.edges, u, false, n);
    let o = incident(v.edges, u, true, n);
    let i = incident(v.edges, u, false, n);
    let all = o + i;
    let ns = neighbours(v, u);
    assert forall|w: u32| #[trigger] ns.contains(w) <==> adjacent(v, u as int, w as int) by {
        if ns.contains(w) {
            let p = choose|p: int| 0 <= p < ns.len() && ns[p] == w;
            let t = all[p];
            if p < o.len() {
                assert(t == o[p]);
                assert(joins(v.edges[t.0 as int], u as int, w as int));
            } else {
                assert(t == i[p - o.len()]);
                assert(joins(v.edges[t.0 as int], u as int, w as int));
            }
        }
        if adjacent(v, u as int, w as int) {
            let k = choose|k: int| 0 <= k < v.edges.len() && #[trigger] joins(v.edges[k], u as int, w as int);
            let e = v.edges[k];
            if e.0 == u && e.1 == w {
                let p = choose|p: int| 0 <= p < o.len() && o[p].0 == k;
                assert(ns[p] == all[p].1);
            } else {
                assert(if false { (v.edges[k]).0 == u } else { v.edges[k].1 == u });
                let p = choose|p: int| 0 <= p < i.len() && i[p].0 == k;
                assert(ns[o.len() + p] == all[o.len() + p].1);
            }
        }
    }
}

/// Level `k` of the breadth-first search holds exactly the nodes `k` hops
/// from `c`, once each; the nodes seen by then are those at most `k` hops
/// away.
proof fn lemma_bfs(v: KGView, c: u32, k: nat)
    requires
        edges_in_range(v),
        (c as int) < v.nodes.len(),
        v.nodes.len() <= u32::MAX,
        v.edges.len() <= u32::MAX,
    ensures
        forall|w: u32| #[trigger] bfs(v, c, k).0.contains(w) <==> within(v, c as int, w as int, k),
        forall|w: u32| #[trigger] bfs(v, c, k).1.contains(w) <==> hop_distance_is(v, c as int, w as int, k),
        distinct_u32(bfs(v, c, k).1),
    decreases k,
{
    let ci = c as int;
    if k == 0 {
        assert forall|w: u32| #[trigger] bfs(v, c, k).0.contains(w) <==> within(v, ci, w as int, k) by {
            if bfs(v, c, k).0.contains(w) {
                let i = choose|i: int| 0 <= i < bfs(v, c, k).0.len() && bfs(v, c, k).0[i] == w;
            }
            if within(v, ci, w as int, k) {
                assert(bfs(v, c, k).0[0] == w);
            }
        }
        assert forall|w: u32| #[trigger] bfs(v, c, k).1.contains(w) <==> hop_distance_is(v, ci, w as int, k) by {
            if bfs(v, c, k).1.contains(w) {
                let i = choose|i: int| 0 <= i < bfs(v, c, k).1.len() && bfs(v, c, k).1[i] == w;
            }
            if hop_distance_is(v, ci, w as int, k) {
                assert(bfs(v, c, k).1[0] == w);
            }
        }
    } else {
        let k1 = (k - 1) as nat;
        lemma_bfs(v, c, k1);
        let p = bfs(v, c, k1);
        let nxt = expand(v, p.0, p.1);
        lemma_expand(v, p.0, p.1);
        assert(bfs(v, c, k) == (p.0 + nxt, nxt));
        assert forall|w: u32| #[trigger] nxt.contains(w) <==> hop_distance_is(v, ci, w as int, k) by {
            if nxt.contains(w) {
                let i = choose|i: int| 0 <= i < p.1.len() && #[trigger] neighbours(v, p.1[i]).contains(w);
                let u = p.1[i];
                assert(p.1.contains(u));
                lemma_neighbours(v, u);
                lemma_hop_range(v, ci, u as int, k1);
                assert(adjacent(v, u as int, w as int));
                assert(within(v, ci, w as int, k));
            }
            if hop_distance_is(v, ci, w as int, k) {
                let u = choose|u: int| 0 <= u < v.nodes.len() && within(v, ci, u, k1) && #[trigger] adjacent(v, u, w as int);
                lemma_hop_exists(v, ci, u, k1);
                let j = choose|j: nat| j <= k1 && #[trigger] hop_distance_is(v, ci, u, j);
                if j < k1 {
                    assert(within(v, ci, w as int, (j + 1) as nat));
                    lemma_within_mono(v, ci, w as int, (j + 1) as nat, k1);
                }
                let uu = u as u32;
                assert(uu as int == u);
                assert(p.1.contains(uu));
                let i = choose|i: int| 0 <= i < p.1.len() && p.1[i] == uu;
                lemma_neighbours(v, uu);
                assert(neighbours(v, p.1[i]).contains(w));
                assert(!p.0.contains(w));
            }
        }
        assert forall|w: u32| #[trigger] (p.0 + nxt).contains(w) <==> within(v, ci, w as int, k) by {
            if (p.0 + nxt).contains(w) {
                let i = choose|i: int| 0 <= i < (p.0 + nxt).len() && (p.0 + nxt)[i] == w;
                if i < p.0.len() {
                    assert(p.0.contains(w));
                } else {
                    assert(nxt[i - p.0.len()] == w);
                    assert(nxt.contains(w));
                }
            }
            if within(v, ci, w as int, k) {
                if within(v, ci, w as int, k1) {
                    assert(p.0.contains(w));
                    let i = choose|i: int| 0 <= i < p.0.len() && p.0[i] == w;
                    assert((p.0 + nxt)[i] == w);
                } else {
                    assert(hop_distance_is(v, ci, w as int, k));
                    assert(nxt.contains(w));
                    let i = choose|i: int| 0 <= i < nxt.len() && nxt[i] == w;
                    assert((p.0 + nxt)[p.0.len() + i] == w);
                }
            }
        }
    }
}

proof fn lemma_listed(v: KGView, level: Seq<u32>, d: usize, filter: Option<ConceptCategory>)
    ensures
        forall|x: u32, j: usize| #[trigger] listed(v, level, d, filter).contains((x, j)) <==> j == d && level.contains(x)
            && category_ok(v, x as int, filter),
        distinct_u32(level) ==> forall|i: int, k: int| 0 <= i < k < listed(v, level, d, filter).len() ==> (#[trigger] listed(v, level, d, filter)[i]).0 != (#[trigger] listed(v, level, d, filter)[k]).0,
        forall|i: int| 0 <= i < listed(v, level, d, filter).len() ==> level.contains((#[trigger] listed(v, level, d, filter)[i]).0),
    decreases level.len(),
{
    if level.len() > 0 {
        let dl = level.drop_last();
        lemma_listed(v, dl, d, filter);
        let r = listed(v, dl, d, filter);
        let x0 = level.last();
        assert forall|x: u32| level.contains(x) <==> dl.contains(x) || x == x0 by {
            if level.contains(x) {
                let i = choose|i: int| 0 <= i < level.len() && level[i] == x;
                if i < level.len() - 1 {
                    assert(dl[i] == x);
                }
            }
            if dl.contains(x) {
                let i = choose|i: int| 0 <= i < dl.len() && dl[i] == x;
                assert(level[i] == x);
            }
            if x == x0 {
                assert(level[level.len() - 1] == x);
            }
        }
        let l = listed(v, level, d, filter);
        if category_ok(v, x0 as int, filter) {
            assert(l == r.push((x0, d)));
            assert forall|x: u32, j: usize| #[trigger] l.contains((x, j)) <==> j == d && level.contains(x)
                && category_ok(v, x as int, filter) by {
                if l.contains((x, j)) {
                    let i = choose|i: int| 0 <= i < l.len() && l[i] == (x, j);
                    if i < r.len() {
                        assert(r[i] == (x, j));
                        assert(r.contains((x, j)));
                    }
                }
                if j == d && level.contains(x) && category_ok(v, x as int, filter) {
                    if x == x0 {
                        assert(l[r.len() as int] == (x, j));
                    } else {
                        assert(r.contains((x, j)));
                        let i = choose|i: int| 0 <= i < r.len() && r[i] == (x, j);
                        assert(l[i] == (x, j));
                    }
                }
            }
            assert forall|i: int| 0 <= i < l.len() implies level.contains((#[trigger] l[i]).0) by {
                if i < r.len() {
                    assert(l[i] == r[i]);
                }
            }
            if distinct_u32(level) {
                assert(distinct_u32(dl)) by {
                    assert forall|i: int, j: int| 0 <= i < j < dl.len() implies dl[i] != dl[j] by {
                        assert(dl[i] == level[i] && dl[j] == level[j]);
                    }
                }
                assert forall|i: int, k: int| 0 <= i < k < l.len() implies (#[trigger] l[i]).0 != (#[trigger] l[k]).0 by {
                    if k == r.len() {
                        assert(l[i] == r[i]);
                        assert(dl.contains(r[i].0));
                        let t = choose|t: int| 0 <= t < dl.len() && dl[t] == r[i].0;
                        assert(level[t] == dl[t]);
                    } else {
                        assert(l[i] == r[i] && l[k] == r[k]);
                    }
                }
            }
        } else {
            assert(l == r);
            if distinct_u32(level) {
                assert(distinct_u32(dl)) by {
                    assert forall|i: int, j: int| 0 <= i < j < dl.len() implies dl[i] != dl[j] by {
                        assert(dl[i] == level[i] && dl[j] == level[j]);
                    }
                }
            }
            assert forall|x: u32, j: usize| #[trigger] l.contains((x, j)) <==> j == d && level.contains(x)
                && category_ok(v, x as int, filter) by {}
        }
    }
}

/// The listing of the neighbourhood search: each node `j` hops away, for
/// `j` from 1 to `d`, that passes the filter, once, with `j`.
proof fn lemma_bfs_listing(v: KGView, c: u32, d: nat, filter: Option<ConceptCategory>)
    requires
        edges_in_range(v),
        (c as int) < v.nodes.len(),
        v.nodes.len() <= u32::MAX,
        v.edges.len() <= u32::MAX,
        d <= usize::MAX,
    ensures
        forall|x: u32, j: usize| #[trigger] bfs_listing(v, c, d, filter).contains((x, j)) <==> 1 <= j <= d
            && hop_distance_is(v, c as int, x as int, j as nat) && category_ok(v, x as int, filter),
        forall|i: int, k: int| 0 <= i < k < bfs_listing(v, c, d, filter).len() ==> (#[trigger] bfs_listing(v, c, d, filter)[i]).0
            != (#[trigger] bfs_listing(v, c, d, filter)[k]).0,
        forall|i: int| 0 <= i < bfs_listing(v, c, d, filter).len() ==> bfs(v, c, d).0.contains((#[trigger] bfs_listing(v, c, d, filter)[i]).0),
    decreases d,
{
    if d > 0 {
        let d1 = (d - 1) as nat;
        lemma_bfs_listing(v, c, d1, filter);
        lemma_bfs(v, c, d);
        lemma_bfs(v, c, d1);
        let p = bfs(v, c, d1);
        let nxt = bfs(v, c, d).1;
        lemma_expand(v, p.0, p.1);
        assert(nxt == expand(v, p.0, p.1));
        lemma_listed(v, nxt, d as usize, filter);
        let a = bfs_listing(v, c, d1, filter);
        let b = listed(v, nxt, d as usize, filter);
        let l = bfs_listing(v, c, d, filter);
        assert(l == a + b);
        assert forall|x: u32, j: usize| #[trigger] l.contains((x, j)) <==> 1 <= j <= d
            && hop_distance_is(v, c as int, x as int, j as nat) && category_ok(v, x as int, filter) by {
            if l.contains((x, j)) {
                let i = choose|i: int| 0 <= i < l.len() && l[i] == (x, j);
                if i < a.len() {
                    assert(a[i] == (x, j));
                    assert(a.contains((x, j)));
                } else {
                    assert(b[i - a.len()] == (x, j));
                    assert(b.contains((x, j)));
                }
            }
            if 1 <= j <= d && hop_distance_is(v, c as int, x as int, j as nat) && category_ok(v, x as int, filter) {
                if j < d {
                    assert(a.contains((x, j)));
                    let i = choose|i: int| 0 <= i < a.len() && a[i] == (x, j);
                    assert(l[i] == (x, j));
                } else {
                    assert(nxt.contains(x));
                    assert(b.contains((x, j)));
                    let i = choose|i: int| 0 <= i < b.len() && b[i] == (x, j);
                    assert(l[a.len() + i] == (x, j));
                }
            }
        }
        assert forall|i: int| 0 <= i < l.len() implies bfs(v, c, d).0.contains((#[trigger] l[i]).0) by {
            let w = l[i].0;
            if i < a.len() {
                assert(l[i] == a[i]);
                assert(p.0.contains(w));
                let t = choose|t: int| 0 <= t < p.0.len() && p.0[t] == w;
                assert((p.0 + nxt)[t] == w);
            } else {
                assert(l[i] == b[i - a.len()]);
                assert(nxt.contains(w));
                let t = choose|t: int| 0 <= t < nxt.len() && nxt[t] == w;
                assert((p.0 + nxt)[p.0.len() + t] == w);
            }
        }
        assert forall|i: int, k: int| 0 <= i < k < l.len() implies (#[trigger] l[i]).0 != (#[trigger] l[k]).0 by {
            if k < a.len() {
                assert(l[i] == a[i] && l[k] == a[k]);
            } else if i >= a.len() {
                assert(l[i] == b[i - a.len()] && l[k] == b[k - a.len()]);
            } else {
                assert(l[i] == a[i] && l[k] == b[k - a.len()]);
                assert(p.0.contains(a[i].0));
                assert(nxt.contains(b[k - a.len()].0));
            }
        }
    }
}

/// Once a level is empty, every later level is, and the listing stops
/// growing.
proof fn lemma_bfs_stops(v: KGView, c: u32, k: nat, m: nat, filter: Option<ConceptCategory>)
    requires
        bfs(v, c, k).1.len() == 0,
        k <= m,
    ensures
        bfs(v, c, m).1.len() == 0,
        bfs(v, c, m).0 == bfs(v, c, k).0,
        bfs_listing(v, c, m, filter) == bfs_listing(v, c, k, filter),
    decreases m,
{
    if k < m {
        lemma_bfs_stops(v, c, k, (m - 1) as nat, filter);
        let p = bfs(v, c, (m - 1) as nat);
        assert(expand(v, p.0, p.1) == Seq::<u32>::empty());
        assert(p.0 + Seq::<u32>::empty() =~= p.0);
        assert(listed(v, bfs(v, c, m).1, m as usize, filter) == Seq::<(u32, usize)>::empty());
        assert(bfs_listing(v, c, (m - 1) as nat, filter) + Seq::<(u32, usize)>::empty() =~= bfs_listing(v, c, (m - 1) as nat, filter));
    }
}

/// A node with `name` given to it unless it already has a name.
pub open spec fn named(base: NodeView, name: Seq<char>) -> NodeView {
    NodeView { name: if base.name.len() > 0 { base.name } else { name }, ..base }
}

/// Number of nodes among the first `n` that have a name.
pub open spec fn named_count(nodes: Seq<NodeView>, n: int) -> nat
    decreases n,
{
    if n <= 0 {
        0
    } else {
        named_count(nodes, n - 1) + if nodes[n - 1].name.len() > 0 { 1nat } else { 0nat }
    }
}

/// Calling `ensure_concept` twice with one id gives one node: after the
/// first call the id is found, at the index the first call returned.
pub proof fn lemma_ensure_concept_idempotent(v: KGView, id: ConceptId, category: ConceptCategory, tick: u64)
    ensures
        lookup_in(v, id) is None ==> lookup_in(v.with_node(id, category, tick), id) == Some(v.nodes.len() as u32),
{
    if lookup_in(v, id) is None {
        let w = v.with_node(id, category, tick);
        lemma_find_from(v.nodes, id, 0);
        lemma_find_from(w.nodes, id, 0);
        assert(w.nodes[v.nodes.len() as int].id == id);
    }
}

/// The conditions a graph keeps, on plain values: distinct ids, edges
/// between existing nodes, one edge per direction and kind between two
/// nodes, indices that fit a `u32`.
pub open spec fn view_wf(v: KGView) -> bool {
    &&& forall|i: int, j: int| 0 <= i < j < v.nodes.len() ==> v.nodes[i].id != v.nodes[j].id
    &&& forall|k: int| 0 <= k < v.edges.len() ==> (#[trigger] v.edges[k]).0 < v.nodes.len() && v.edges[k].1 < v.nodes.len()
    &&& forall|k1: int, k2: int|
        0 <= k1 < k2 < v.edges.len() ==> !same_link(
            #[trigger] v.edges[k2],
            (#[trigger] v.edges[k1]).0,
            v.edges[k1].1,
            v.edges[k1].2.relationship,
        )
    &&& v.nodes.len() <= u32::MAX
    &&& v.edges.len() <= u32::MAX
}

/// The views of a list of nodes.
pub open spec fn node_views(nodes: Seq<ConceptNode>) -> Seq<NodeView> {
    nodes.map_values(|n: ConceptNode| n@)
}

/// Saving and restoring keep a graph: the parts of a well-formed graph
/// meet every condition [`KnowledgeGraph::from_parts`] checks, so it
/// rebuilds the same graph from them.
pub proof fn lemma_parts_round_trip(g: KnowledgeGraph)
    requires
        g.wf(),
    ensures
        view_wf(KGView { nodes: g@.nodes, edges: g@.edges }),
{
}

/// Node `a` comes before node `b` by name, the earlier-created first
/// among equal names.
pub open spec fn name_before(v: KGView, a: int, b: int) -> bool {
    seq_lt(v.nodes[a].name, v.nodes[b].name) || (v.nodes[a].name == v.nodes[b].name && a < b)
}

/// `r` lists nodes strictly in name order.
pub open spec fn sorted_by_name(v: KGView, r: Seq<u32>) -> bool {
    forall|i: int, j: int| 0 <= i < j < r.len() ==> name_before(v, #[trigger] r[i] as int, #[trigger] r[j] as int)
}

/// Node `x` is listed by the journal: it has a name and is no location.
pub open spec fn journal_listed(v: KGView, x: int) -> bool {
    v.nodes[x].name.len() > 0 && v.nodes[x].category != ConceptCategory::Location
}

/// Timeline entries for the nodes from index `from` up to `to`, all first
/// observed at `tick`.
pub open spec fn appended(from: nat, to: nat, tick: u64) -> Seq<(u64, u32)> {
    Seq::new((to - from) as nat, |k: int| (tick, (from + k) as u32))
}

/// Timeline `b`, of a graph with `nb` nodes, is timeline `a`, of the graph
/// with `na` nodes it grew from, followed by the nodes added since, first
/// observed at `tick`.
pub open spec fn timeline_grows(a: Seq<(u64, u32)>, na: nat, b: Seq<(u64, u32)>, nb: nat, tick: u64) -> bool {
    na <= nb && b == a + appended(na, nb, tick)
}

proof fn lemma_timeline_grows_trans(
    a: Seq<(u64, u32)>,
    na: nat,
    b: Seq<(u64, u32)>,
    nb: nat,
    c: Seq<(u64, u32)>,
    nc: nat,
    tick: u64,
)
    requires
        timeline_grows(a, na, b, nb, tick),
        timeline_grows(b, nb, c, nc, tick),
    ensures
        timeline_grows(a, na, c, nc, tick),
{
    assert(appended(na, nb, tick) + appended(nb, nc, tick) =~= appended(na, nc, tick));
    assert(a + appended(na, nb, tick) + appended(nb, nc, tick) =~= a + appended(na, nc, tick));
}

/// Timeline entries ordered by tick, and by node index among equal ticks.
pub open spec fn tick_sorted(t: Seq<(u64, u32)>) -> bool {
    forall|i: int, j: int| 0 <= i < j < t.len() ==> (#[trigger] t[i]).0 < (#[trigger] t[j]).0 || (t[i].0 == t[j].0
        && t[i].1 < t[j].1)
}

/// The nodes after removing node `i`: the last node moves into its place.
pub open spec fn swap_removed(nodes: Seq<NodeView>, i: int) -> Seq<NodeView> {
    Seq::new((nodes.len() - 1) as nat, |t: int| if t == i { nodes.last() } else { nodes[t] })
}

/// Node index `x` after node `i` was removed and the last node, `last`,
/// moved into its place.
pub open spec fn renamed(x: u32, i: u32, last: u32) -> u32 {
    if x == last { i } else { x }
}

/// The edges after removing node `i`: those that touch it are dropped, the
/// others keep their order, with the last node, `last`, renamed to `i`.
pub open spec fn edges_without(edges: Seq<(u32, u32, ConceptEdge)>, i: u32, last: u32) -> Seq<(u32, u32, ConceptEdge)>
    decreases edges.len(),
{
    if edges.len() == 0 {
        Seq::empty()
    } else {
        let r = edges_without(edges.drop_last(), i, last);
        let e = edges.last();
        if e.0 == i || e.1 == i {
            r
        } else {
            r.push((renamed(e.0, i, last), renamed(e.1, i, last), e.2))
        }
    }
}

/// Every edge left after removing node `i` is a renamed edge that did not
/// touch it; no two of them are one link.
proof fn lemma_edges_without(edges: Seq<(u32, u32, ConceptEdge)>, i: u32, last: u32, n: int)
    requires
        n == last + 1,
        i <= last,
        forall|k: int| 0 <= k < edges.len() ==> (#[trigger] edges[k]).0 < n && edges[k].1 < n,
        forall|k1: int, k2: int| 0 <= k1 < k2 < edges.len() ==> !same_link(#[trigger] edges[k2], (#[trigger] edges[k1]).0,
            edges[k1].1, edges[k1].2.relationship),
    ensures
        edges_without(edges, i, last).len() <= edges.len(),
        forall|p: int| 0 <= p < edges_without(edges, i, last).len() ==> exists|k: int| 0 <= k < edges.len()
            && edges[k].0 != i && edges[k].1 != i && #[trigger] edges_without(edges, i, last)[p] == (renamed(edges[k].0, i, last),
            renamed(edges[k].1, i, last), edges[k].2),
        forall|p: int| 0 <= p < edges_without(edges, i, last).len() ==> (#[trigger] edges_without(edges, i, last)[p]).0 < last
            && edges_without(edges, i, last)[p].1 < last,
        forall|p1: int, p2: int| 0 <= p1 < p2 < edges_without(edges, i, last).len() ==> !same_link(
            #[trigger] edges_without(edges, i, last)[p2],
            (#[trigger] edges_without(edges, i, last)[p1]).0,
            edges_without(edges, i, last)[p1].1,
            edges_without(edges, i, last)[p1].2.relationship,
        ),
    decreases edges.len(),
{
    if edges.len() > 0 {
        let d = edges.drop_last();
        assert forall|k: int| 0 <= k < d.len() implies (#[trigger] d[k]).0 < n && d[k].1 < n by {
            assert(d[k] == edges[k]);
        }
        assert forall|k1: int, k2: int| 0 <= k1 < k2 < d.len() implies !same_link(#[trigger] d[k2], (#[trigger] d[k1]).0,
            d[k1].1, d[k1].2.relationship) by {
            assert(d[k1] == edges[k1] && d[k2] == edges[k2]);
        }
        lemma_edges_without(d, i, last, n);
        let r = edges_without(d, i, last);
        let e = edges.last();
        let l = edges_without(edges, i, last);
        let kl = edges.len() - 1;
        assert(edges[kl] == e);
        assert forall|p: int| 0 <= p < r.len() implies exists|k: int| 0 <= k < edges.len()
            && edges[k].0 != i && edges[k].1 != i && #[trigger] l[p] == (renamed(edges[k].0, i, last),
            renamed(edges[k].1, i, last), edges[k].2) by {
            let k = choose|k: int| 0 <= k < d.len() && d[k].0 != i && d[k].1 != i && #[trigger] r[p] == (renamed(d[k].0, i, last),
                renamed(d[k].1, i, last), d[k].2);
            assert(d[k] == edges[k]);
            assert(l[p] == r[p]);
        }
        if !(e.0 == i || e.1 == i) {
            assert(l[r.len() as int] == (renamed(e.0, i, last), renamed(e.1, i, last), e.2));
            assert forall|p1: int, p2: int| 0 <= p1 < p2 < l.len() implies !same_link(
                #[trigger] l[p2], (#[trigger] l[p1]).0, l[p1].1, l[p1].2.relationship) by {
                if p2 == r.len() {
                    let k = choose|k: int| 0 <= k < d.len() && d[k].0 != i && d[k].1 != i && #[trigger] r[p1] == (renamed(d[k].0, i, last),
                        renamed(d[k].1, i, last), d[k].2);
                    assert(l[p1] == r[p1]);
                    assert(d[k] == edges[k]);
                    assert(edges[k].0 < n && edges[k].1 < n);
                    assert(e.0 < n && e.1 < n);
                } else {
                    assert(l[p1] == r[p1] && l[p2] == r[p2]);
                }
            }
        }
        assert forall|p: int| 0 <= p < l.len() implies (#[trigger] l[p]).0 < last && l[p].1 < last by {
            if p < r.len() {
                assert(l[p] == r[p]);
            } else {
                assert(e.0 < n && e.1 < n);
            }
        }
    }
}

/// The player's knowledge graph.
pub struct KnowledgeGraph {
    graph: Graph<ConceptNode, ConceptEdge>,
    timeline: Vec<(u64, u32)>,
}

impl View for KnowledgeGraph {
    type V = KGView;

    closed spec fn view(&self) -> KGView {
        KGView { nodes: graph_nodes(self.graph), edges: graph_edges(self.graph) }
    }
}

/// One observation as the graph records it.
pub struct ObservationRecord {
    /// The observed concept.
    pub key: ConceptKey,
    /// The name the observer gives it.
    pub name: String,
    /// The planet it was observed on, if any.
    pub planet_seed: Option<u64>,
    /// Bit pattern of the observation's confidence.
    pub confidence_bits: u32,
    /// Kind of observation.
    pub category: ObservationCategory,
    /// The wording of the observation.
    pub description: String,
    /// For a fabrication, the seeds of its input materials.
    pub input_seeds: Vec<u64>,
    /// A location the observation was made at, if any.
    pub context_location: Option<ConceptKey>,
}

/// Index of the first of `os` with this category and description.
pub open spec fn find_obs(os: Seq<ObsView>, category: ObservationCategory, description: Seq<char>) -> Option<int>
    decreases os.len(),
{
    if os.len() == 0 {
        None
    } else {
        match find_obs(os.drop_last(), category, description) {
            Some(p) => Some(p),
            None => if os.last().category == category && os.last().description == description {
                Some(os.len() - 1)
            } else {
                None
            },
        }
    }
}

/// A node after recording an observation of `category` worded
/// `description`: an observation it already holds with that category and
/// wording stays as it is (the caller strengthens its confidence); a new
/// one is appended, recorded at `tick`.
pub open spec fn with_observation(base: NodeView, category: ObservationCategory, description: Seq<char>, confidence_bits: u32, tick: u64) -> NodeView {
    if find_obs(base.observations, category, description) is Some {
        base
    } else {
        NodeView {
            observations: base.observations.push(ObsView { category, description, confidence_bits, recorded_at: tick }),
            ..base
        }
    }
}

proof fn lemma_find_obs(os: Seq<ObsView>, category: ObservationCategory, description: Seq<char>)
    ensures
        find_obs(os, category, description) matches Some(p) ==> 0 <= p < os.len() && os[p].category == category
            && os[p].description == description && forall|q: int| 0 <= q < p ==> !((#[trigger] os[q]).category == category
            && os[q].description == description),
        find_obs(os, category, description) is None ==> forall|q: int| 0 <= q < os.len() ==> !((#[trigger] os[q]).category
            == category && os[q].description == description),
    decreases os.len(),
{
    if os.len() > 0 {
        let d = os.drop_last();
        lemma_find_obs(d, category, description);
        assert forall|q: int| 0 <= q < d.len() implies #[trigger] d[q] == os[q] by {}
        let l = os.len() - 1;
        assert(os.last() == os[l]);
        match find_obs(d, category, description) {
            Some(p) => {
                assert(d[p] == os[p]);
                assert forall|q: int| 0 <= q < p implies !((#[trigger] os[q]).category == category && os[q].description == description) by {
                    assert(d[q] == os[q]);
                }
            },
            None => {
                assert forall|q: int| 0 <= q < l implies !((#[trigger] os[q]).category == category && os[q].description == description) by {
                    assert(d[q] == os[q]);
                }
            },
        }
    }
}

/// The node `id` has in `v`, or the fresh node it would get.
pub open spec fn prior_or_fresh(v: KGView, key: ConceptKey, tick: u64) -> NodeView {
    match lookup_in(v, ConceptId(key)) {
        Some(j) => v.nodes[j as int],
        None => fresh_node(ConceptId(key), category_spec(key), tick),
    }
}

/// A node after an observation: the first name and the first planet stay,
/// an unset one is taken from the observation; the node was last updated
/// at `tick`.
pub open spec fn observed(base: NodeView, name: Seq<char>, planet_seed: Option<u64>, tick: u64) -> NodeView {
    NodeView {
        name: if base.name.len() > 0 { base.name } else { name },
        origin_planet_seed: if base.origin_planet_seed is Some { base.origin_planet_seed } else { planet_seed },
        last_updated_at: tick,
        ..base
    }
}

/// The key names the material `seed`, with or without a planet.
pub open spec fn is_material(k: ConceptKey, seed: u64) -> bool {
    match k {
        ConceptKey::Material { seed: s, .. } => s == seed,
        ConceptKey::MaterialInstance { seed: s } => s == seed,
        _ => false,
    }
}

/// Index of the first node, from `i` on, that names the material `seed`.
pub open spec fn find_material_from(nodes: Seq<NodeView>, seed: u64, i: int) -> Option<int>
    decreases nodes.len() - i,
{
    if i < 0 || i >= nodes.len() {
        None
    } else if is_material(nodes[i].id.0, seed) {
        Some(i)
    } else {
        find_material_from(nodes, seed, i + 1)
    }
}

/// The first node of `v` that names the material `seed`, whatever planet
/// it was recorded for.
pub open spec fn material_in(v: KGView, seed: u64) -> Option<u32> {
    match find_material_from(v.nodes, seed, 0) {
        Some(j) => Some(j as u32),
        None => None,
    }
}

proof fn lemma_find_material_from(nodes: Seq<NodeView>, seed: u64, i: int)
    requires
        0 <= i,
    ensures
        find_material_from(nodes, seed, i) matches Some(j) ==> i <= j < nodes.len() && is_material(nodes[j].id.0, seed)
            && forall|k: int| i <= k < j ==> !is_material(#[trigger] nodes[k].id.0, seed),
        find_material_from(nodes, seed, i) is None ==> forall|k: int| i <= k < nodes.len() ==> !is_material(#[trigger] nodes[k].id.0, seed),
    decreases nodes.len() - i,
{
    if i < nodes.len() && !is_material(nodes[i].id.0, seed) {
        lemma_find_material_from(nodes, seed, i + 1);
    }
}

/// A material found in `a` is found at the same index in any `b` that
/// grows from it.
proof fn lemma_material_grows(a: KGView, b: KGView, seed: u64)
    requires
        grows(a, b),
        material_in(a, seed) is Some,
    ensures
        material_in(b, seed) == material_in(a, seed),
{
    lemma_find_material_from(a.nodes, seed, 0);
    lemma_find_material_from(b.nodes, seed, 0);
    let j = find_material_from(a.nodes, seed, 0)->0;
    assert(b.nodes[j] == a.nodes[j]);
    if let Some(jb) = find_material_from(b.nodes, seed, 0) {
        if jb < j {
            assert(b.nodes[jb] == a.nodes[jb]);
        }
    }
}

/// The material `seed` has a node, and `s` an edge of kind `r` to it.
pub open spec fn linked_to_material(v: KGView, s: u32, seed: u64, r: RelationshipType) -> bool {
    material_in(v, seed) matches Some(m) && link_exists(v, s, m, r)
}

/// The concept `id` has a node, and `s` an edge of kind `r` to it.
pub open spec fn linked_to(v: KGView, s: u32, id: ConceptId, r: RelationshipType) -> bool {
    lookup_in(v, id) matches Some(l) && link_exists(v, s, l, r)
}

/// The index of the edge an outcome names.
pub open spec fn outcome_index(o: RelateOutcome) -> u32 {
    match o {
        RelateOutcome::Added(k) => k,
        RelateOutcome::Existing(k) => k,
    }
}

/// Edge `e` goes from `s` to the node of `id` and has weight `w`.
pub open spec fn link_to(v: KGView, e: (u32, u32, ConceptEdge), s: u32, id: ConceptId, w: ConceptEdge) -> bool {
    e.0 == s && lookup_in(v, id) == Some(e.1) && e.2 == w
}

/// Edge `e` goes from `s` to the node of the material `seed` and has
/// weight `w`.
pub open spec fn link_to_material(v: KGView, e: (u32, u32, ConceptEdge), s: u32, seed: u64, w: ConceptEdge) -> bool {
    e.0 == s && material_in(v, seed) == Some(e.1) && e.2 == w
}

/// The weight of an edge an observation at `tick` wires.
pub open spec fn wired(r: RelationshipType, confidence_bits: u32, tick: u64) -> ConceptEdge {
    ConceptEdge { relationship: r, confidence_bits, discovered_at: tick }
}

/// Edge `e` is one that observation `obs` of the concept at `s`, made at
/// `tick`, shows, with the weight it gets: found on the planet and observed
/// at the context location with the observation's confidence, derived from
/// an input and the two inputs combined with full confidence, all
/// discovered at `tick`.
pub open spec fn observation_link(v: KGView, obs: ObservationRecord, s: u32, tick: u64, e: (u32, u32, ConceptEdge)) -> bool {
    ||| (obs.planet_seed matches Some(ps) && link_to(v, e, s, ConceptId(ConceptKey::Location { planet_seed: ps }),
            wired(RelationshipType::FoundOn, obs.confidence_bits, tick)))
    ||| (obs.key is Fabrication && exists|i: int| 0 <= i < obs.input_seeds@.len() && link_to_material(v, e, s,
            #[trigger] obs.input_seeds@[i], wired(RelationshipType::DerivedFrom, FULL_CONFIDENCE_BITS, tick)))
    ||| (obs.key is Fabrication && obs.input_seeds@.len() == 2 && material_in(v, obs.input_seeds@[0]) == Some(e.0)
        && link_to_material(v, e, e.0, obs.input_seeds@[1], wired(RelationshipType::CombinedWith, FULL_CONFIDENCE_BITS, tick)))
    ||| (obs.context_location matches Some(cl) && link_to(v, e, s, ConceptId(cl),
            wired(RelationshipType::ObservedAt, obs.confidence_bits, tick)))
}

/// Every edge from index `from` on is one that observation `obs` shows.
pub open spec fn links_observed(v: KGView, obs: ObservationRecord, s: u32, tick: u64, from: int) -> bool {
    forall|k: int| from <= k < v.edges.len() ==> observation_link(v, obs, s, tick, #[trigger] v.edges[k])
}

proof fn lemma_links_step(a: KGView, b: KGView, obs: ObservationRecord, s: u32, tick: u64, from: int)
    requires
        grows(a, b),
        0 <= from <= a.edges.len(),
        links_observed(a, obs, s, tick, from),
        links_observed(b, obs, s, tick, a.edges.len() as int),
    ensures
        links_observed(b, obs, s, tick, from),
{
    assert forall|k: int| from <= k < b.edges.len() implies observation_link(b, obs, s, tick, #[trigger] b.edges[k]) by {
        if k < a.edges.len() {
            assert(b.edges[k] == a.edges[k]);
            lemma_observation_link_grows(a, b, obs, s, tick, a.edges[k]);
        }
    }
}

proof fn lemma_observation_link_grows(a: KGView, b: KGView, obs: ObservationRecord, s: u32, tick: u64, e: (u32, u32, ConceptEdge))
    requires
        grows(a, b),
        observation_link(a, obs, s, tick, e),
    ensures
        observation_link(b, obs, s, tick, e),
{
    if let Some(ps) = obs.planet_seed {
        if link_to(a, e, s, ConceptId(ConceptKey::Location { planet_seed: ps }), wired(RelationshipType::FoundOn, obs.confidence_bits, tick)) {
            lemma_lookup_grows(a, b, ConceptId(ConceptKey::Location { planet_seed: ps }));
        }
    }
    if obs.key is Fabrication && exists|i: int| 0 <= i < obs.input_seeds@.len() && link_to_material(a, e, s,
            #[trigger] obs.input_seeds@[i], wired(RelationshipType::DerivedFrom, FULL_CONFIDENCE_BITS, tick)) {
        let i = choose|i: int| 0 <= i < obs.input_seeds@.len() && link_to_material(a, e, s,
            #[trigger] obs.input_seeds@[i], wired(RelationshipType::DerivedFrom, FULL_CONFIDENCE_BITS, tick));
        lemma_material_grows(a, b, obs.input_seeds@[i]);
    }
    if obs.key is Fabrication && obs.input_seeds@.len() == 2 && material_in(a, obs.input_seeds@[0]) == Some(e.0)
        && link_to_material(a, e, e.0, obs.input_seeds@[1], wired(RelationshipType::CombinedWith, FULL_CONFIDENCE_BITS, tick)) {
        lemma_material_grows(a, b, obs.input_seeds@[0]);
        lemma_material_grows(a, b, obs.input_seeds@[1]);
    }
    if let Some(cl) = obs.context_location {
        if link_to(a, e, s, ConceptId(cl), wired(RelationshipType::ObservedAt, obs.confidence_bits, tick)) {
            lemma_lookup_grows(a, b, ConceptId(cl));
        }
    }
}

proof fn lemma_linked_to_grows(a: KGView, b: KGView, s: u32, id: ConceptId, r: RelationshipType)
    requires
        grows(a, b),
        linked_to(a, s, id, r),
    ensures
        linked_to(b, s, id, r),
{
    let l = lookup_in(a, id)->0;
    lemma_lookup_grows(a, b, id);
    lemma_link_grows(a, b, s, l, r);
}

proof fn lemma_linked_to_material_grows(a: KGView, b: KGView, s: u32, seed: u64, r: RelationshipType)
    requires
        grows(a, b),
        linked_to_material(a, s, seed, r),
    ensures
        linked_to_material(b, s, seed, r),
{
    let m = material_in(a, seed)->0;
    lemma_material_grows(a, b, seed);
    lemma_link_grows(a, b, s, m, r);
}

impl KnowledgeGraph {
    /// The discovery timeline: `(first-observed tick, node index)` entries,
    /// one appended per concept created, or, for a rebuilt graph, sorted by
    /// tick.
    pub closed spec fn timeline_spec(&self) -> Seq<(u64, u32)> {
        self.timeline@
    }

    /// The node index of `id`, if known.
    pub open spec fn lookup_spec(&self, id: ConceptId) -> Option<u32> {
        lookup_in(self@, id)
    }

    /// No two nodes share an id; every edge joins existing nodes; no two
    /// edges join the same two nodes in the same direction with the same
    /// kind; node and edge indices fit a `u32`.
    pub open spec fn wf(&self) -> bool {
        &&& forall|i: int, j: int|
            0 <= i < j < self@.nodes.len() ==> self@.nodes[i].id != self@.nodes[j].id
        &&& forall|k: int|
            0 <= k < self@.edges.len() ==> (#[trigger] self@.edges[k]).0 < self@.nodes.len()
                && self@.edges[k].1 < self@.nodes.len()
        &&& forall|k1: int, k2: int|
            0 <= k1 < k2 < self@.edges.len() ==> !same_link(
                #[trigger] self@.edges[k2],
                (#[trigger] self@.edges[k1]).0,
                self@.edges[k1].1,
                self@.edges[k1].2.relationship,
            )
        &&& self@.nodes.len() <= u32::MAX
        &&& self@.edges.len() <= u32::MAX
    }

    /// An empty graph.
    pub fn new() -> (g: Self)
        ensures
            g.wf(),
            g@.nodes == Seq::<NodeView>::empty(),
            g@.edges == Seq::<(u32, u32, ConceptEdge)>::empty(),
            g.timeline_spec() == Seq::<(u64, u32)>::empty(),
    {
        KnowledgeGraph { graph: graph_new(), timeline: Vec::new() }
    }

    /// The node index of `id`, if the concept is known.
    pub fn lookup(&self, id: &ConceptId) -> (r: Option<u32>)
        requires
            self.wf(),
        ensures
            r == self.lookup_spec(*id),
    {
        let n = graph_node_count(&self.graph);
        let mut i: usize = 0;
        while i < n
            invariant
                n == self@.nodes.len(),
                self.wf(),
                i <= n,
                find_from(self@.nodes, *id, 0) == find_from(self@.nodes, *id, i as int),
            decreases n - i,
        {
            let node = graph_node(&self.graph, i as u32);
            if node.id == *id {
                return Some(i as u32);
            }
            i = i + 1;
        }
        None
    }

    /// The node of the material with this seed, found by its seed alone,
    /// whatever planet it was recorded for: the first such node.
    pub fn lookup_material_by_seed(&self, seed: u64) -> (r: Option<u32>)
        requires
            self.wf(),
        ensures
            r == material_in(self@, seed),
    {
        let n = graph_node_count(&self.graph);
        let mut i: usize = 0;
        while i < n
            invariant
                n == self@.nodes.len(),
                self.wf(),
                i <= n,
                find_material_from(self@.nodes, seed, 0) == find_material_from(self@.nodes, seed, i as int),
            decreases n - i,
        {
            let found = match graph_node(&self.graph, i as u32).id.0 {
                ConceptKey::Material { seed: s, .. } => s == seed,
                ConceptKey::MaterialInstance { seed: s } => s == seed,
                _ => false,
            };
            if found {
                return Some(i as u32);
            }
            i = i + 1;
        }
        None
    }

    /// The node at index `i`, if it exists.
    pub fn node(&self, i: u32) -> (r: Option<&ConceptNode>)
        ensures
            (i as int) < self@.nodes.len() ==> (r matches Some(n) && n@ == self@.nodes[i as int]),
            (i as int) >= self@.nodes.len() ==> r is None,
    {
        if (i as usize) < graph_node_count(&self.graph) {
            Some(graph_node(&self.graph, i))
        } else {
            None
        }
    }

    /// The edge at index `k` as source, target and weight, if it exists.
    pub fn edge(&self, k: u32) -> (r: Option<(u32, u32, ConceptEdge)>)
        ensures
            (k as int) < self@.edges.len() ==> r == Some(self@.edges[k as int]),
            (k as int) >= self@.edges.len() ==> r is None,
    {
        if (k as usize) < graph_edge_count(&self.graph) {
            Some(graph_edge(&self.graph, k))
        } else {
            None
        }
    }

    /// The number of nodes.
    pub fn node_count(&self) -> (n: usize)
        ensures
            n == self@.nodes.len(),
    {
        graph_node_count(&self.graph)
    }

    /// The number of edges.
    pub fn edge_count(&self) -> (n: usize)
        ensures
            n == self@.edges.len(),
    {
        graph_edge_count(&self.graph)
    }

    /// Gets or creates the node for `id`. An existing node is returned
    /// unchanged; a new one is unnamed, starts at the initial confidence and
    /// was first and last observed at `tick`.
    pub fn ensure_concept(&mut self, id: ConceptId, category: ConceptCategory, tick: u64) -> (i: u32)
        requires
            old(self).wf(),
            old(self)@.nodes.len() < u32::MAX,
        ensures
            final(self).wf(),
            old(self).lookup_spec(id) is Some ==> i == old(self).lookup_spec(id)->0 && final(self)@
                == old(self)@,
            old(self).lookup_spec(id) is None ==> i == old(self)@.nodes.len() && final(self)@
                == old(self)@.with_node(id, category, tick),
            final(self).lookup_spec(id) == Some(i),
            (i as int) < final(self)@.nodes.len(),
            grows(old(self)@, final(self)@),
            timeline_grows(old(self).timeline_spec(), old(self)@.nodes.len(), final(self).timeline_spec(), final(self)@.nodes.len(), tick),
    {
        match self.lookup(&id) {
            Some(j) => {
                proof {
                    lemma_find_from(self@.nodes, id, 0);
                    assert(self.timeline@ =~= self.timeline@ + appended(self@.nodes.len(), self@.nodes.len(), tick));
                }
                j
            },
            None => {
                let ghost before = self@;
                proof {
                    lemma_find_from(before.nodes, id, 0);
                }
                let node = ConceptNode {
                    id,
                    category,
                    name: String::new(),
                    confidence_bits: INITIAL_CONFIDENCE_BITS,
                    first_observed_at: tick,
                    last_updated_at: tick,
                    origin_planet_seed: None,
                    observations: Vec::new(),
                };
                assert(obs_views(node.observations@) =~= Seq::<ObsView>::empty());
                let ghost t0 = self.timeline@;
                let i = graph_add_node(&mut self.graph, node);
                self.timeline.push((tick, i));
                assert(self.timeline@ =~= t0 + appended(before.nodes.len(), before.nodes.len() + 1, tick));
                assert(self@.nodes =~= before.nodes.push(fresh_node(id, category, tick)));
                proof {
                    lemma_find_from(self@.nodes, id, 0);
                    assert(self@.nodes[i as int].id == id);
                }
                i
            },
        }
    }

    /// Adds a relationship from `from` to `to`, unless an edge of the same
    /// kind already joins them in that direction; that edge is then left
    /// unchanged and its index returned, so that the caller can strengthen
    /// its confidence.
    pub fn relate(&mut self, from: u32, to: u32, edge: ConceptEdge) -> (r: RelateOutcome)
        requires
            old(self).wf(),
            (from as int) < old(self)@.nodes.len(),
            (to as int) < old(self)@.nodes.len(),
            old(self)@.edges.len() < u32::MAX,
        ensures
            final(self).wf(),
            grows(old(self)@, final(self)@),
            final(self)@.nodes == old(self)@.nodes,
            link_exists(final(self)@, from, to, edge.relationship),
            (r is Existing) == link_exists(old(self)@, from, to, edge.relationship),
            r matches RelateOutcome::Existing(k) ==> (k as int) < old(self)@.edges.len() && same_link(
                old(self)@.edges[k as int],
                from,
                to,
                edge.relationship,
            ) && final(self)@ == old(self)@,
            r matches RelateOutcome::Added(k) ==> k == old(self)@.edges.len() && final(self)@.edges
                == old(self)@.edges.push((from, to, edge)),
            final(self).timeline_spec() == old(self).timeline_spec(),
    {
        let out = graph_outgoing(&self.graph, from);
        let ghost edges = self@.edges;
        proof {
            lemma_incident(edges, from, true, edges.len() as int);
        }
        let mut i: usize = 0;
        while i < out.len()
            invariant
                self.wf(),
                edges == self@.edges,
                out@ == incident(edges, from, true, edges.len() as int),
                i <= out.len(),
                forall|m: int| 0 <= m < i ==> !(out@[m].1 == to && out@[m].2.relationship == edge.relationship),
            decreases out.len() - i,
        {
            if out[i].1 == to && out[i].2.relationship == edge.relationship {
                let k = out[i].0;
                proof {
                    lemma_incident(edges, from, true, edges.len() as int);
                    let t = out@[i as int];
                    assert(t == incident(edges, from, true, edges.len() as int)[i as int]);
                    assert(same_link(self@.edges[k as int], from, to, edge.relationship));
                }
                return RelateOutcome::Existing(k);
            }
            i = i + 1;
        }
        proof {
            assert forall|k: int| 0 <= k < edges.len() implies !same_link(#[trigger] edges[k], from, to, edge.relationship) by {
                if same_link(edges[k], from, to, edge.relationship) {
                    let m = choose|m: int| 0 <= m < out@.len() && out@[m].0 == k;
                    assert(out@[m] == incident(edges, from, true, edges.len() as int)[m]);
                }
            }
        }
        let ghost before = self@;
        let k = graph_add_edge(&mut self.graph, from, to, edge);
        proof {
            assert(self@.edges[k as int] == (from, to, edge));
            assert(same_link(self@.edges[k as int], from, to, edge.relationship));
        }
        RelateOutcome::Added(k)
    }

    /// Replaces the confidence of edge `k`, which must exist; nothing else
    /// changes.
    pub fn set_edge_confidence(&mut self, k: u32, confidence_bits: u32)
        requires
            old(self).wf(),
            (k as int) < old(self)@.edges.len(),
        ensures
            final(self).wf(),
            final(self)@.nodes == old(self)@.nodes,
            final(self)@.edges == old(self)@.edges.update(
                k as int,
                (
                    old(self)@.edges[k as int].0,
                    old(self)@.edges[k as int].1,
                    ConceptEdge { confidence_bits, ..old(self)@.edges[k as int].2 },
                ),
            ),
            final(self).timeline_spec() == old(self).timeline_spec(),
    {
        let (_, _, e) = graph_edge(&self.graph, k);
        let updated = ConceptEdge { relationship: e.relationship, confidence_bits, discovered_at: e.discovered_at };
        graph_set_edge(&mut self.graph, k, updated);
    }

    /// Replaces the overall confidence of node `i`, which must exist;
    /// nothing else changes.
    pub fn set_node_confidence(&mut self, i: u32, confidence_bits: u32)
        requires
            old(self).wf(),
            (i as int) < old(self)@.nodes.len(),
        ensures
            final(self).wf(),
            final(self)@.edges == old(self)@.edges,
            final(self)@.nodes == old(self)@.nodes.update(
                i as int,
                NodeView { confidence_bits, ..old(self)@.nodes[i as int] },
            ),
            final(self).timeline_spec() == old(self).timeline_spec(),
    {
        let n = graph_node(&self.graph, i);
        let updated = ConceptNode {
            id: n.id,
            category: n.category,
            name: n.name.clone(),
            confidence_bits,
            first_observed_at: n.first_observed_at,
            last_updated_at: n.last_updated_at,
            origin_planet_seed: n.origin_planet_seed,
            observations: Self::copy_observations(&n.observations),
        };
        graph_set_node(&mut self.graph, i, updated);
        assert(self@.nodes[i as int].id == old(self)@.nodes[i as int].id);
    }

    /// Every relationship of `node` in both directions, as the other node
    /// and the edge: its outgoing edges newest first, then its incoming
    /// edges newest first.
    pub fn relationships(&self, node: u32) -> (r: Vec<(u32, ConceptEdge)>)
        requires
            self.wf(),
        ensures
            r@ == (incident(self@.edges, node, true, self@.edges.len() as int) + incident(
                self@.edges,
                node,
                false,
                self@.edges.len() as int,
            )).map_values(|t: (u32, u32, ConceptEdge)| (t.1, t.2)),
    {
        let out = graph_outgoing(&self.graph, node);
        let inc = graph_incoming(&self.graph, node);
        let ghost all = out@ + inc@;
        let mut r: Vec<(u32, ConceptEdge)> = Vec::new();
        let mut i: usize = 0;
        while i < out.len()
            invariant
                all == out@ + inc@,
                i <= out.len(),
                r@ == all.subrange(0, i as int).map_values(|t: (u32, u32, ConceptEdge)| (t.1, t.2)),
            decreases out.len() - i,
        {
            r.push((out[i].1, out[i].2));
            i = i + 1;
            assert(r@ =~= all.subrange(0, i as int).map_values(|t: (u32, u32, ConceptEdge)| (t.1, t.2)));
        }
        let mut j: usize = 0;
        while j < inc.len()
            invariant
                all == out@ + inc@,
                j <= inc.len(),
                r@ == all.subrange(0, out@.len() + j).map_values(|t: (u32, u32, ConceptEdge)| (t.1, t.2)),
            decreases inc.len() - j,
        {
            r.push((inc[j].1, inc[j].2));
            j = j + 1;
            assert(r@ =~= all.subrange(0, out@.len() + j).map_values(|t: (u32, u32, ConceptEdge)| (t.1, t.2)));
        }
        assert(all.subrange(0, all.len() as int) =~= all);
        r
    }

    /// The node of a material input: the material's node, found by its
    /// seed, or a new one for the seed alone.
    fn material_input(&mut self, seed: u64, tick: u64) -> (m: u32)
        requires
            old(self).wf(),
            old(self)@.nodes.len() < u32::MAX,
        ensures
            final(self).wf(),
            grows(old(self)@, final(self)@),
            final(self)@.edges == old(self)@.edges,
            final(self)@.nodes.len() <= old(self)@.nodes.len() + 1,
            material_in(final(self)@, seed) == Some(m),
            (m as int) < final(self)@.nodes.len(),
            timeline_grows(old(self).timeline_spec(), old(self)@.nodes.len(), final(self).timeline_spec(), final(self)@.nodes.len(), tick),
    {
        proof {
            lemma_find_material_from(self@.nodes, seed, 0);
        }
        match self.lookup_material_by_seed(seed) {
            Some(m) => {
                assert(self.timeline@ =~= self.timeline@ + appended(self@.nodes.len(), self@.nodes.len(), tick));
                m
            },
            None => {
                let ghost before = self@;
                let id = ConceptId(ConceptKey::MaterialInstance { seed });
                proof {
                    lemma_find_from(before.nodes, id, 0);
                    if find_from(before.nodes, id, 0) is Some {
                        let j = find_from(before.nodes, id, 0)->0;
                        assert(is_material(before.nodes[j].id.0, seed));
                    }
                }
                let m = self.ensure_concept(id, ConceptCategory::Material, tick);
                proof {
                    lemma_find_material_from(self@.nodes, seed, 0);
                    assert(is_material(self@.nodes[m as int].id.0, seed));
                    assert forall|k: int| 0 <= k < m implies !is_material(#[trigger] self@.nodes[k].id.0, seed) by {
                        assert(self@.nodes[k] == before.nodes[k]);
                    }
                }
                m
            },
        }
    }

    /// Records an observation on node `s`: when it already holds one with
    /// this category and wording, nothing changes and its index is
    /// returned; otherwise the observation is appended, recorded at `tick`.
    fn record_on_node(
        &mut self,
        s: u32,
        category: ObservationCategory,
        description: &String,
        confidence_bits: u32,
        tick: u64,
    ) -> (r: Option<usize>)
        requires
            old(self).wf(),
            (s as int) < old(self)@.nodes.len(),
        ensures
            final(self).wf(),
            final(self)@.edges == old(self)@.edges,
            final(self)@.nodes == old(self)@.nodes.update(
                s as int,
                with_observation(old(self)@.nodes[s as int], category, description@, confidence_bits, tick),
            ),
            r == (match find_obs(old(self)@.nodes[s as int].observations, category, description@) {
                Some(p) => Some(p as usize),
                None => None::<usize>,
            }),
            final(self).timeline_spec() == old(self).timeline_spec(),
    {
        let ghost v = self@;
        let n = graph_node(&self.graph, s);
        proof {
            lemma_find_obs(v.nodes[s as int].observations, category, description@);
        }
        let mut p: usize = 0;
        while p < n.observations.len()
            invariant
                self.wf(),
                v == self@,
                (s as int) < v.nodes.len(),
                n@ == v.nodes[s as int],
                p <= n.observations@.len(),
                forall|q: int| 0 <= q < p ==> !((#[trigger] n@.observations[q]).category == category
                    && n@.observations[q].description == description@),
            decreases n.observations@.len() - p,
        {
            let o = &n.observations[p];
            assert(n@.observations[p as int] == o@);
            if o.category == category && str_eq(o.description.as_str(), description.as_str()) {
                proof {
                    lemma_find_obs(v.nodes[s as int].observations, category, description@);
                    assert(v.nodes =~= v.nodes.update(s as int, v.nodes[s as int]));
                }
                return Some(p);
            }
            p = p + 1;
        }
        let mut c = Self::copy_node(n);
        let ghost c0 = c.observations@;
        c.observations.push(NodeObservation { category, description: description.clone(), confidence_bits, recorded_at: tick });
        assert(obs_views(c.observations@) =~= obs_views(c0).push(ObsView { category, description: description@, confidence_bits, recorded_at: tick }));
        graph_set_node(&mut self.graph, s, c);
        assert(self@.nodes[s as int].id == v.nodes[s as int].id);
        assert(self@.nodes =~= v.nodes.update(s as int, with_observation(v.nodes[s as int], category, description@, confidence_bits, tick)));
        None
    }

    /// Replaces the confidence of observation `p` of node `i`, which must
    /// exist; nothing else changes.
    pub fn set_observation_confidence(&mut self, i: u32, p: usize, confidence_bits: u32)
        requires
            old(self).wf(),
            (i as int) < old(self)@.nodes.len(),
            p < old(self)@.nodes[i as int].observations.len(),
        ensures
            final(self).wf(),
            final(self)@.edges == old(self)@.edges,
            final(self)@.nodes == old(self)@.nodes.update(
                i as int,
                NodeView {
                    observations: old(self)@.nodes[i as int].observations.update(
                        p as int,
                        ObsView { confidence_bits, ..old(self)@.nodes[i as int].observations[p as int] },
                    ),
                    ..old(self)@.nodes[i as int]
                },
            ),
            final(self).timeline_spec() == old(self).timeline_spec(),
    {
        let ghost v = self@;
        let n = graph_node(&self.graph, i);
        let mut c = Self::copy_node(n);
        let o = &n.observations[p];
        let replaced = NodeObservation {
            category: o.category,
            description: o.description.clone(),
            confidence_bits,
            recorded_at: o.recorded_at,
        };
        let ghost c0 = c.observations@;
        c.observations.set(p, replaced);
        assert(obs_views(c.observations@) =~= obs_views(c0).update(p as int, ObsView { confidence_bits, ..v.nodes[i as int].observations[p as int] }));
        graph_set_node(&mut self.graph, i, c);
        assert(self@.nodes[i as int].id == v.nodes[i as int].id);
    }

    /// Gives the observed concept its node and updates it: the first name
    /// and the first planet stay, an unset one is taken from the
    /// observation, and it was last updated at `tick`.
    fn observe_subject(&mut self, obs: &ObservationRecord, tick: u64) -> (r: (u32, Option<usize>))
        requires
            old(self).wf(),
            old(self)@.nodes.len() < u32::MAX,
        ensures
            final(self).wf(),
            final(self)@.edges == old(self)@.edges,
            old(self)@.nodes.len() <= final(self)@.nodes.len() <= old(self)@.nodes.len() + 1,
            (r.0 as int) < final(self)@.nodes.len(),
            lookup_in(final(self)@, ConceptId(obs.key)) == Some(r.0),
            final(self)@.nodes[r.0 as int] == with_observation(
                observed(prior_or_fresh(old(self)@, obs.key, tick), obs.name@, obs.planet_seed, tick),
                obs.category,
                obs.description@,
                obs.confidence_bits,
                tick,
            ),
            r.1 == (match find_obs(prior_or_fresh(old(self)@, obs.key, tick).observations, obs.category, obs.description@) {
                Some(p) => Some(p as usize),
                None => None::<usize>,
            }),
            forall|j: int| 0 <= j < old(self)@.nodes.len() && j != r.0 ==> #[trigger] final(self)@.nodes[j] == old(self)@.nodes[j],
            timeline_grows(old(self).timeline_spec(), old(self)@.nodes.len(), final(self).timeline_spec(), final(self)@.nodes.len(), tick),
    {
        let ghost v0 = self@;
        let cat = category_from_key(&obs.key);
        let s = self.ensure_concept(ConceptId(obs.key), cat, tick);
        proof {
            lemma_find_from(v0.nodes, ConceptId(obs.key), 0);
        }
        let n = graph_node(&self.graph, s);
        let name = if n.name.as_str().is_empty() { obs.name.clone() } else { n.name.clone() };
        let origin = match n.origin_planet_seed {
            Some(p) => Some(p),
            None => obs.planet_seed,
        };
        let updated = ConceptNode {
            id: n.id,
            category: n.category,
            name,
            confidence_bits: n.confidence_bits,
            first_observed_at: n.first_observed_at,
            last_updated_at: tick,
            origin_planet_seed: origin,
            observations: Self::copy_observations(&n.observations),
        };
        let ghost v1 = self@;
        graph_set_node(&mut self.graph, s, updated);
        let ghost v2 = self@;
        proof {
            assert forall|j: int| 0 <= j < v2.nodes.len() implies #[trigger] v2.nodes[j].id == v1.nodes[j].id by {}
            lemma_find_from(v1.nodes, ConceptId(obs.key), 0);
            lemma_find_from(v2.nodes, ConceptId(obs.key), 0);
            assert forall|j: int| 0 <= j < v0.nodes.len() && j != s implies #[trigger] v2.nodes[j] == v0.nodes[j] by {
                assert(v1.nodes[j] == v0.nodes[j]);
            }
        }
        let found = self.record_on_node(s, obs.category, &obs.description, obs.confidence_bits, tick);
        proof {
            let v3 = self@;
            assert forall|j: int| 0 <= j < v3.nodes.len() implies #[trigger] v3.nodes[j].id == v2.nodes[j].id by {}
            lemma_find_from(v2.nodes, ConceptId(obs.key), 0);
            lemma_find_from(v3.nodes, ConceptId(obs.key), 0);
            assert forall|j: int| 0 <= j < v0.nodes.len() && j != s implies #[trigger] v3.nodes[j] == v0.nodes[j] by {
                assert(v2.nodes[j] == v0.nodes[j]);
            }
        }
        (s, found)
    }

    /// Wires `s` to a concept with an edge of kind `r`, creating the
    /// concept's node if needed.
    fn wire_to(&mut self, s: u32, id: ConceptId, rel: RelationshipType, confidence_bits: u32, tick: u64) -> (o: RelateOutcome)
        requires
            old(self).wf(),
            (s as int) < old(self)@.nodes.len(),
            old(self)@.nodes.len() < u32::MAX,
            old(self)@.edges.len() < u32::MAX,
        ensures
            final(self).wf(),
            grows(old(self)@, final(self)@),
            final(self)@.nodes.len() <= old(self)@.nodes.len() + 1,
            final(self)@.edges.len() <= old(self)@.edges.len() + 1,
            linked_to(final(self)@, s, id, rel),
            outcome_index(o) < final(self)@.edges.len(),
            forall|k: int| old(self)@.edges.len() <= k < final(self)@.edges.len() ==> link_to(final(self)@, #[trigger] final(self)@.edges[k], s, id, wired(rel, confidence_bits, tick)),
            timeline_grows(old(self).timeline_spec(), old(self)@.nodes.len(), final(self).timeline_spec(), final(self)@.nodes.len(), tick),
    {
        let c = category_from_key(&id.0);
        let l = self.ensure_concept(id, c, tick);
        let o = self.relate(s, l, ConceptEdge { relationship: rel, confidence_bits, discovered_at: tick });
        proof {
            match o {
                RelateOutcome::Added(k) => {}
                RelateOutcome::Existing(k) => {}
            }
        }
        o
    }

    /// Wires `a` to the material `seed` with an edge of kind `r`, creating
    /// the material's node if needed.
    fn wire_to_material(&mut self, a: u32, seed: u64, rel: RelationshipType, tick: u64) -> (o: RelateOutcome)
        requires
            old(self).wf(),
            (a as int) < old(self)@.nodes.len(),
            old(self)@.nodes.len() < u32::MAX,
            old(self)@.edges.len() < u32::MAX,
        ensures
            final(self).wf(),
            grows(old(self)@, final(self)@),
            final(self)@.nodes.len() <= old(self)@.nodes.len() + 1,
            final(self)@.edges.len() <= old(self)@.edges.len() + 1,
            linked_to_material(final(self)@, a, seed, rel),
            outcome_index(o) < final(self)@.edges.len(),
            forall|k: int| old(self)@.edges.len() <= k < final(self)@.edges.len() ==> link_to_material(final(self)@, #[trigger] final(self)@.edges[k], a, seed, wired(rel, FULL_CONFIDENCE_BITS, tick)),
            timeline_grows(old(self).timeline_spec(), old(self)@.nodes.len(), final(self).timeline_spec(), final(self)@.nodes.len(), tick),
    {
        let m = self.material_input(seed, tick);
        self.relate(a, m, ConceptEdge { relationship: rel, confidence_bits: FULL_CONFIDENCE_BITS, discovered_at: tick })
    }

    /// Records an observation: the observed concept gets a node if it has
    /// none, keeps the first name and the first planet it was given (an
    /// unset one is taken from the observation), is marked updated at
    /// `tick`, and records the observation unless it already holds one of
    /// that category and wording; then the relationships the observation
    /// shows are wired from it: found on its planet, derived from each
    /// fabrication input (found by seed, whatever its planet), the two
    /// inputs of a two-input fabrication combined with each other, observed
    /// at its context location. Returns the observed node, the index of the
    /// observation it already held, if any, and what each wiring did, in
    /// that order; the caller strengthens the confidences of what already
    /// existed.
    pub fn apply_observation(&mut self, obs: &ObservationRecord, tick: u64) -> (r: (u32, Option<usize>, Vec<RelateOutcome>))
        requires
            old(self).wf(),
            old(self)@.nodes.len() + obs.input_seeds@.len() + 8 <= u32::MAX,
            old(self)@.edges.len() + obs.input_seeds@.len() + 8 <= u32::MAX,
        ensures
            final(self).wf(),
            lookup_in(final(self)@, ConceptId(obs.key)) == Some(r.0),
            final(self)@.nodes[r.0 as int] == with_observation(
                observed(prior_or_fresh(old(self)@, obs.key, tick), obs.name@, obs.planet_seed, tick),
                obs.category,
                obs.description@,
                obs.confidence_bits,
                tick,
            ),
            r.1 == (match find_obs(prior_or_fresh(old(self)@, obs.key, tick).observations, obs.category, obs.description@) {
                Some(p) => Some(p as usize),
                None => None::<usize>,
            }),
            old(self)@.nodes.len() <= final(self)@.nodes.len(),
            forall|j: int| 0 <= j < old(self)@.nodes.len() && j != r.0 ==> #[trigger] final(self)@.nodes[j] == old(self)@.nodes[j],
            old(self)@.edges.len() <= final(self)@.edges.len(),
            forall|k: int| 0 <= k < old(self)@.edges.len() ==> #[trigger] final(self)@.edges[k] == old(self)@.edges[k],
            obs.planet_seed matches Some(ps) ==> linked_to(final(self)@, r.0, ConceptId(ConceptKey::Location { planet_seed: ps }), RelationshipType::FoundOn),
            obs.key is Fabrication ==> forall|i: int| 0 <= i < obs.input_seeds@.len() ==> linked_to_material(final(self)@, r.0, #[trigger] obs.input_seeds@[i], RelationshipType::DerivedFrom),
            (obs.key is Fabrication && obs.input_seeds@.len() == 2) ==> (material_in(final(self)@, obs.input_seeds@[0]) matches Some(a)
                && linked_to_material(final(self)@, a, obs.input_seeds@[1], RelationshipType::CombinedWith)),
            obs.context_location matches Some(cl) ==> linked_to(final(self)@, r.0, ConceptId(cl), RelationshipType::ObservedAt),
            forall|i: int| 0 <= i < r.2@.len() ==> outcome_index(#[trigger] r.2@[i]) < final(self)@.edges.len(),
            links_observed(final(self)@, *obs, r.0, tick, old(self)@.edges.len() as int),
            timeline_grows(old(self).timeline_spec(), old(self)@.nodes.len(), final(self).timeline_spec(), final(self)@.nodes.len(), tick),
    {
        let ghost v0 = self@;
        let ghost t0 = self.timeline@;
        let (s, found) = self.observe_subject(obs, tick);
        let ghost v2 = self@;
        let mut outcomes: Vec<RelateOutcome> = Vec::new();
        let is_fabrication = match obs.key {
            ConceptKey::Fabrication { .. } => true,
            _ => false,
        };

        let ghost e0 = v0.edges.len() as int;
        let ghost v2t = self.timeline@;
        if let Some(ps) = obs.planet_seed {
            let o = self.wire_to(s, ConceptId(ConceptKey::Location { planet_seed: ps }), RelationshipType::FoundOn, obs.confidence_bits, tick);
            outcomes.push(o);
            proof {
                lemma_links_step(v2, self@, *obs, s, tick, e0);
                lemma_timeline_grows_trans(t0, v0.nodes.len(), v2t, v2.nodes.len(), self.timeline@, self@.nodes.len(), tick);
            }
        }
        let ghost v3 = self@;

        let mut i: usize = 0;
        if is_fabrication {
            while i < obs.input_seeds.len()
                invariant
                    self.wf(),
                    grows(v2, self@),
                    grows(v3, self@),
                    is_fabrication == obs.key is Fabrication,
                    is_fabrication,
                    (s as int) < v2.nodes.len(),
                    i <= obs.input_seeds@.len(),
                    self@.nodes.len() <= v0.nodes.len() + 2 + i,
                    self@.edges.len() <= v0.edges.len() + 1 + i,
                    v0.nodes.len() + obs.input_seeds@.len() + 8 <= u32::MAX,
                    v0.edges.len() + obs.input_seeds@.len() + 8 <= u32::MAX,
                    e0 == v0.edges.len(),
                    e0 <= v2.edges.len(),
                    links_observed(self@, *obs, s, tick, e0),
                    timeline_grows(t0, v0.nodes.len(), self.timeline@, self@.nodes.len(), tick),
                    forall|i2: int| 0 <= i2 < i ==> linked_to_material(self@, s, #[trigger] obs.input_seeds@[i2], RelationshipType::DerivedFrom),
                    forall|m: int| 0 <= m < outcomes@.len() ==> outcome_index(#[trigger] outcomes@[m]) < self@.edges.len(),
                decreases obs.input_seeds@.len() - i,
            {
                let ghost before = self@;
                let ghost bt = self.timeline@;
                let o = self.wire_to_material(s, obs.input_seeds[i], RelationshipType::DerivedFrom, tick);
                outcomes.push(o);
                proof {
                    lemma_timeline_grows_trans(t0, v0.nodes.len(), bt, before.nodes.len(), self.timeline@, self@.nodes.len(), tick);
                    assert forall|i2: int| 0 <= i2 < i implies linked_to_material(self@, s, #[trigger] obs.input_seeds@[i2], RelationshipType::DerivedFrom) by {
                        lemma_linked_to_material_grows(before, self@, s, obs.input_seeds@[i2], RelationshipType::DerivedFrom);
                    }
                    assert forall|k: int| before.edges.len() <= k < self@.edges.len() implies observation_link(self@, *obs, s, tick, #[trigger] self@.edges[k]) by {
                        assert(link_to_material(self@, self@.edges[k], s, obs.input_seeds@[i as int], wired(RelationshipType::DerivedFrom, FULL_CONFIDENCE_BITS, tick)));
                    }
                    lemma_links_step(before, self@, *obs, s, tick, e0);
                }
                i = i + 1;
            }
        }
        let ghost v4 = self@;

        if is_fabrication && obs.input_seeds.len() == 2 {
            let ghost v4t = self.timeline@;
            let a = self.material_input(obs.input_seeds[0], tick);
            let ghost va = self@;
            let ghost vat = self.timeline@;
            let o = self.wire_to_material(a, obs.input_seeds[1], RelationshipType::CombinedWith, tick);
            outcomes.push(o);
            proof {
                lemma_timeline_grows_trans(t0, v0.nodes.len(), v4t, v4.nodes.len(), vat, va.nodes.len(), tick);
                lemma_timeline_grows_trans(t0, v0.nodes.len(), vat, va.nodes.len(), self.timeline@, self@.nodes.len(), tick);
                lemma_material_grows(va, self@, obs.input_seeds@[0]);
                lemma_links_step(v4, va, *obs, s, tick, e0);
                lemma_links_step(va, self@, *obs, s, tick, e0);
            }
        }
        let ghost v5 = self@;

        let ghost v5t = self.timeline@;
        if let Some(cl) = obs.context_location {
            let o = self.wire_to(s, ConceptId(cl), RelationshipType::ObservedAt, obs.confidence_bits, tick);
            outcomes.push(o);
            proof {
                lemma_timeline_grows_trans(t0, v0.nodes.len(), v5t, v5.nodes.len(), self.timeline@, self@.nodes.len(), tick);
                lemma_links_step(v5, self@, *obs, s, tick, e0);
            }
        }
        proof {
            lemma_lookup_grows(v2, self@, ConceptId(obs.key));
            if let Some(ps) = obs.planet_seed {
                lemma_linked_to_grows(v3, self@, s, ConceptId(ConceptKey::Location { planet_seed: ps }), RelationshipType::FoundOn);
            }
            if is_fabrication {
                assert forall|i2: int| 0 <= i2 < obs.input_seeds@.len() implies linked_to_material(self@, s, #[trigger] obs.input_seeds@[i2], RelationshipType::DerivedFrom) by {
                    lemma_linked_to_material_grows(v4, self@, s, obs.input_seeds@[i2], RelationshipType::DerivedFrom);
                }
            }
            if is_fabrication && obs.input_seeds@.len() == 2 {
                let a = material_in(v5, obs.input_seeds@[0])->0;
                lemma_material_grows(v5, self@, obs.input_seeds@[0]);
                lemma_linked_to_material_grows(v5, self@, a, obs.input_seeds@[1], RelationshipType::CombinedWith);
            }
            assert forall|j: int| 0 <= j < v0.nodes.len() && j != s implies #[trigger] self@.nodes[j] == v0.nodes[j] by {
                assert(self@.nodes[j] == v2.nodes[j]);
            }
        }
        (s, found, outcomes)
    }

    /// Passes the category filter.
    fn passes(&self, x: u32, filter: Option<ConceptCategory>) -> (b: bool)
        requires
            (x as int) < self@.nodes.len(),
        ensures
            b == category_ok(self@, x as int, filter),
    {
        match filter {
            None => true,
            Some(cat) => graph_node(&self.graph, x).category == cat,
        }
    }

    /// Marks `w` seen and appends it to `next`, unless it was seen.
    fn visit(w: u32, seen: &mut Vec<bool>, next: &mut Vec<u32>)
        requires
            (w as int) < old(seen)@.len(),
        ensures
            old(seen)@[w as int] ==> final(seen)@ == old(seen)@ && final(next)@ == old(next)@,
            !old(seen)@[w as int] ==> final(seen)@ == old(seen)@.update(w as int, true) && final(next)@
                == old(next)@.push(w),
    {
        if !seen[w as usize] {
            seen.set(w as usize, true);
            next.push(w);
        }
    }

    /// The next breadth-first level after `level`, marking its nodes seen.
    fn next_level(&self, level: &Vec<u32>, seen0: Vec<bool>, Ghost(sn): Ghost<Seq<u32>>) -> (r: (Vec<u32>, Vec<bool>))
        requires
            self.wf(),
            seen0@.len() == self@.nodes.len(),
            seen_matches(seen0@, sn, Seq::empty(), self@.nodes.len() as int),
            forall|i: int| 0 <= i < level@.len() ==> (#[trigger] level@[i] as int) < self@.nodes.len(),
        ensures
            r.0@ == expand(self@, sn, level@),
            r.1@.len() == self@.nodes.len(),
            seen_matches(r.1@, sn, r.0@, self@.nodes.len() as int),
    {
        let mut seen = seen0;
        let ghost v = self@;
        let n = graph_node_count(&self.graph);
        let mut next: Vec<u32> = Vec::new();
        let mut li: usize = 0;
        while li < level.len()
            invariant
                self.wf(),
                v == self@,
                n == v.nodes.len(),
                seen@.len() == n,
                li <= level@.len(),
                forall|i: int| 0 <= i < level@.len() ==> (#[trigger] level@[i] as int) < n,
                next@ == expand(v, sn, level@.take(li as int)),
                seen_matches(seen@, sn, next@, n as int),
            decreases level@.len() - li,
        {
            let u = level[li];
            let out = graph_outgoing(&self.graph, u);
            let inc = graph_incoming(&self.graph, u);
            let ghost ns = neighbours(v, u);
            let ghost base = next@;
            proof {
                lemma_incident(v.edges, u, true, v.edges.len() as int);
                lemma_incident(v.edges, u, false, v.edges.len() as int);
                assert forall|j: int| 0 <= j < ns.len() implies (#[trigger] ns[j] as int) < n by {
                    if j < out@.len() {
                        assert(ns[j] == out@[j].1);
                        assert(out@[j] == incident(v.edges, u, true, v.edges.len() as int)[j]);
                    } else {
                        assert(ns[j] == inc@[j - out@.len()].1);
                        assert(inc@[j - out@.len()] == incident(v.edges, u, false, v.edges.len() as int)[j - out@.len()]);
                    }
                }
                assert(add_unseen(base, sn, ns.take(0)) == base);
                assert(ns == (out@ + inc@).map_values(|t: (u32, u32, ConceptEdge)| t.1));
                assert(seen@.len() == n);
            }
            let mut j: usize = 0;
            while j < out.len()
                invariant
                    n == v.nodes.len(),
                    n <= u32::MAX,
                    seen@.len() == n,
                    ns == (out@ + inc@).map_values(|t: (u32, u32, ConceptEdge)| t.1),
                    forall|k: int| 0 <= k < ns.len() ==> (#[trigger] ns[k] as int) < n,
                    j <= out@.len(),
                    next@ == add_unseen(base, sn, ns.take(j as int)),
                    seen_matches(seen@, sn, next@, n as int),
                decreases out@.len() - j,
            {
                let w = out[j].1;
                let ghost before = next@;
                let ghost seen_before = seen@;
                proof {
                    assert(ns[j as int] == w);
                    assert(ns.take(j + 1).drop_last() =~= ns.take(j as int));
                    assert(ns.take(j + 1).last() == w);
                    assert((w as int) < n);
                    lemma_seen_at(seen_before, sn, before, n as int, w);
                    assert(add_unseen(base, sn, ns.take(j + 1)) == (if sn.contains(w) || before.contains(w) { before } else { before.push(w) }));
                }
                Self::visit(w, &mut seen, &mut next);
                proof {
                    lemma_visit_step(seen_before, sn, before, n as int, w, seen@, next@);
                }
                j = j + 1;
            }
            let mut j2: usize = 0;
            while j2 < inc.len()
                invariant
                    n == v.nodes.len(),
                    n <= u32::MAX,
                    seen@.len() == n,
                    ns == (out@ + inc@).map_values(|t: (u32, u32, ConceptEdge)| t.1),
                    forall|k: int| 0 <= k < ns.len() ==> (#[trigger] ns[k] as int) < n,
                    j2 <= inc@.len(),
                    next@ == add_unseen(base, sn, ns.take(out@.len() + j2)),
                    seen_matches(seen@, sn, next@, n as int),
                decreases inc@.len() - j2,
            {
                let w = inc[j2].1;
                let ghost before = next@;
                let ghost seen_before = seen@;
                let ghost jj = out@.len() + j2;
                proof {
                    assert(ns[jj] == w);
                    assert(ns.take(jj + 1).drop_last() =~= ns.take(jj));
                    assert(ns.take(jj + 1).last() == w);
                    assert((w as int) < n);
                    lemma_seen_at(seen_before, sn, before, n as int, w);
                    assert(add_unseen(base, sn, ns.take(jj + 1)) == (if sn.contains(w) || before.contains(w) { before } else { before.push(w) }));
                }
                Self::visit(w, &mut seen, &mut next);
                proof {
                    lemma_visit_step(seen_before, sn, before, n as int, w, seen@, next@);
                }
                j2 = j2 + 1;
            }
            proof {
                assert(ns.take(ns.len() as int) =~= ns);
                assert(level@.take(li + 1).drop_last() =~= level@.take(li as int));
                assert(level@.take(li + 1).last() == u);
            }
            li = li + 1;
        }
        assert(level@.take(level@.len() as int) =~= level@);
        (next, seen)
    }

    /// The nodes at most `depth` hops from `center`, edges taken in either
    /// direction, each with its distance, in breadth-first order: level by
    /// level, and within a level in the order the nodes of the previous
    /// level, each through its relationships in turn, first reach them.
    /// `center` itself is left out, and with a filter only the nodes of that
    /// category are listed, though the search passes through the others.
    pub fn neighborhood(&self, center: u32, depth: usize, filter: Option<ConceptCategory>) -> (r: Vec<(u32, usize)>)
        requires
            self.wf(),
            (center as int) < self@.nodes.len(),
        ensures
            r@ == bfs_listing(self@, center, depth as nat, filter),
            forall|x: u32, d: usize| #[trigger] r@.contains((x, d)) <==> (x != center && 1 <= d <= depth
                && hop_distance_is(self@, center as int, x as int, d as nat) && category_ok(self@, x as int, filter)),
            forall|i: int, k: int| 0 <= i < k < r@.len() ==> (#[trigger] r@[i]).0 != (#[trigger] r@[k]).0,
    {
        let n = graph_node_count(&self.graph);
        let ghost v = self@;
        let ghost c = center as int;
        let mut seen: Vec<bool> = Vec::new();
        let mut i: usize = 0;
        while i < n
            invariant
                n == v.nodes.len(),
                c == center as int,
                i <= n,
                seen@.len() == i,
                forall|x: int| 0 <= x < i ==> #[trigger] seen@[x] == (x == c),
            decreases n - i,
        {
            seen.push(i == center as usize);
            i = i + 1;
        }
        let mut level: Vec<u32> = Vec::new();
        level.push(center);
        let mut r: Vec<(u32, usize)> = Vec::new();
        let mut d: usize = 0;
        proof {
            assert(level@ =~= seq![center]);
            lemma_seen_start(seen@, center, n as int);
        }
        while d < depth && level.len() > 0
            invariant
                self.wf(),
                v == self@,
                c == center as int,
                0 <= c < n,
                n == v.nodes.len(),
                seen@.len() == n,
                d <= depth,
                level@ == bfs(v, center, d as nat).1,
                seen_matches(seen@, bfs(v, center, d as nat).0, Seq::empty(), n as int),
                r@ == bfs_listing(v, center, d as nat, filter),
            decreases depth - d,
        {
            proof {
                lemma_bfs(v, center, d as nat);
                assert forall|t: int| 0 <= t < level@.len() implies (#[trigger] level@[t] as int) < n by {
                    assert(level@.contains(level@[t]));
                    lemma_hop_range(v, c, level@[t] as int, d as nat);
                }
            }
            let ghost sn = bfs(v, center, d as nat).0;
            let (next, seen1) = self.next_level(&level, seen, Ghost(sn));
            seen = seen1;
            let ghost r0 = r@;
            proof {
                lemma_bfs(v, center, (d + 1) as nat);
                assert(next@ == bfs(v, center, (d + 1) as nat).1);
                assert forall|t: int| 0 <= t < next@.len() implies (#[trigger] next@[t] as int) < n by {
                    assert(next@.contains(next@[t]));
                    lemma_hop_range(v, c, next@[t] as int, (d + 1) as nat);
                }
                assert(listed(v, next@.take(0), (d + 1) as usize, filter) == Seq::<(u32, usize)>::empty());
                assert(r0 + Seq::<(u32, usize)>::empty() =~= r0);
            }
            let mut k: usize = 0;
            while k < next.len()
                invariant
                    v == self@,
                    n == v.nodes.len(),
                    d < depth,
                    forall|t: int| 0 <= t < next@.len() ==> (#[trigger] next@[t] as int) < n,
                    k <= next@.len(),
                    r@ == r0 + listed(v, next@.take(k as int), (d + 1) as usize, filter),
                decreases next@.len() - k,
            {
                let w = next[k];
                proof {
                    assert(next@.take(k + 1).drop_last() =~= next@.take(k as int));
                    assert(next@.take(k + 1).last() == w);
                }
                if self.passes(w, filter) {
                    r.push((w, d + 1));
                    assert(r@ =~= r0 + listed(v, next@.take(k + 1), (d + 1) as usize, filter));
                }
                k = k + 1;
            }
            proof {
                assert(next@.take(next@.len() as int) =~= next@);
                lemma_seen_concat(seen@, sn, next@, n as int);
                assert(bfs(v, center, (d + 1) as nat).0 == sn + next@);
            }
            level = next;
            d = d + 1;
        }
        proof {
            if d < depth {
                lemma_bfs_stops(v, center, d as nat, depth as nat, filter);
            }
            lemma_bfs_listing(v, center, depth as nat, filter);
            assert forall|x: u32, j: usize| #[trigger] r@.contains((x, j)) <==> (x != center && 1 <= j <= depth
                && hop_distance_is(v, c, x as int, j as nat) && category_ok(v, x as int, filter)) by {
                if r@.contains((x, j)) && x == center {
                    lemma_within_mono(v, c, c, 0, (j - 1) as nat);
                }
            }
        }
        r
    }

    /// The node at index `i`, if it exists.
    pub fn node_weight(&self, i: u32) -> (r: Option<&ConceptNode>)
        ensures
            (i as int) < self@.nodes.len() ==> (r matches Some(n) && n@ == self@.nodes[i as int]),
            (i as int) >= self@.nodes.len() ==> r is None,
    {
        self.node(i)
    }

    /// The nodes of a category, in the order they were created.
    pub fn by_category(&self, category: ConceptCategory) -> (r: Vec<u32>)
        requires
            self.wf(),
        ensures
            forall|x: u32| #[trigger] r@.contains(x) <==> (x as int) < self@.nodes.len() && self@.nodes[x as int].category == category,
            forall|i: int, k: int| 0 <= i < k < r@.len() ==> r@[i] < r@[k],
    {
        let n = graph_node_count(&self.graph);
        let mut r: Vec<u32> = Vec::new();
        let mut i: usize = 0;
        while i < n
            invariant
                n == self@.nodes.len(),
                self.wf(),
                i <= n,
                forall|x: u32| #[trigger] r@.contains(x) <==> (x as int) < i && self@.nodes[x as int].category == category,
                forall|a: int, b: int| 0 <= a < b < r@.len() ==> r@[a] < r@[b],
                forall|a: int| 0 <= a < r@.len() ==> (r@[a] as int) < i,
            decreases n - i,
        {
            if graph_node(&self.graph, i as u32).category == category {
                let ghost r0 = r@;
                r.push(i as u32);
                proof {
                    assert forall|x: u32| #[trigger] r@.contains(x) <==> (x as int) < i + 1 && self@.nodes[x as int].category == category by {
                        if x == i as u32 {
                            assert(r@[r0.len() as int] == x);
                        } else if r0.contains(x) {
                            let a = choose|a: int| 0 <= a < r0.len() && r0[a] == x;
                            assert(r@[a] == x);
                        } else if r@.contains(x) {
                            let a = choose|a: int| 0 <= a < r@.len() && r@[a] == x;
                            assert(a < r0.len());
                            assert(r0[a] == x);
                        }
                    }
                }
            } else {
                proof {
                    assert forall|x: u32| #[trigger] r@.contains(x) <==> (x as int) < i + 1 && self@.nodes[x as int].category == category by {
                        if x == i as u32 && r@.contains(x) {
                            let a = choose|a: int| 0 <= a < r@.len() && r@[a] == x;
                        }
                    }
                }
            }
            i = i + 1;
        }
        r
    }

    /// The discovery timeline: each concept with the tick it was first
    /// observed at, in the order the concepts were created, or, for a graph
    /// rebuilt from saved parts, in tick order.
    pub fn timeline(&self) -> (r: Vec<(u64, u32)>)
        ensures
            r@ == self.timeline_spec(),
    {
        let mut r: Vec<(u64, u32)> = Vec::new();
        let mut i: usize = 0;
        while i < self.timeline.len()
            invariant
                i <= self.timeline@.len(),
                r@ == self.timeline@.take(i as int),
            decreases self.timeline@.len() - i,
        {
            r.push(self.timeline[i]);
            i = i + 1;
            assert(r@ =~= self.timeline@.take(i as int));
        }
        assert(self.timeline@.take(self.timeline@.len() as int) =~= self.timeline@);
        r
    }

    /// The number of nodes that have a name.
    pub fn named_node_count(&self) -> (c: usize)
        requires
            self.wf(),
        ensures
            c == named_count(self@.nodes, self@.nodes.len() as int),
    {
        let n = graph_node_count(&self.graph);
        let mut c: usize = 0;
        let mut i: usize = 0;
        while i < n
            invariant
                n == self@.nodes.len(),
                self.wf(),
                i <= n,
                c == named_count(self@.nodes, i as int),
                c <= i,
            decreases n - i,
        {
            if !graph_node(&self.graph, i as u32).name.as_str().is_empty() {
                c = c + 1;
            }
            i = i + 1;
        }
        c
    }

    /// Records a named concept: creates its node if needed and gives it
    /// `name` unless it already has one.
    pub fn record(&mut self, key: ConceptKey, name: &str, tick: u64) -> (i: u32)
        requires
            old(self).wf(),
            old(self)@.nodes.len() < u32::MAX,
        ensures
            final(self).wf(),
            lookup_in(final(self)@, ConceptId(key)) == Some(i),
            final(self)@.edges == old(self)@.edges,
            final(self)@.nodes[i as int] == named(prior_or_fresh(old(self)@, key, tick), name@),
            forall|j: int| 0 <= j < old(self)@.nodes.len() && j != i ==> #[trigger] final(self)@.nodes[j] == old(self)@.nodes[j],
            timeline_grows(old(self).timeline_spec(), old(self)@.nodes.len(), final(self).timeline_spec(), final(self)@.nodes.len(), tick),
    {
        let ghost v0 = self@;
        let c = category_from_key(&key);
        let i = self.ensure_concept(ConceptId(key), c, tick);
        proof {
            lemma_find_from(v0.nodes, ConceptId(key), 0);
        }
        let n = graph_node(&self.graph, i);
        if n.name.as_str().is_empty() {
            let updated = ConceptNode {
                id: n.id,
                category: n.category,
                name: name.to_owned(),
                confidence_bits: n.confidence_bits,
                first_observed_at: n.first_observed_at,
                last_updated_at: n.last_updated_at,
                origin_planet_seed: n.origin_planet_seed,
                observations: Self::copy_observations(&n.observations),
            };
            let ghost v1 = self@;
            graph_set_node(&mut self.graph, i, updated);
            proof {
                let v2 = self@;
                assert forall|j: int| 0 <= j < v2.nodes.len() implies #[trigger] v2.nodes[j].id == v1.nodes[j].id by {}
                lemma_find_from(v1.nodes, ConceptId(key), 0);
                lemma_find_from(v2.nodes, ConceptId(key), 0);
                assert forall|j: int| 0 <= j < v0.nodes.len() && j != i implies #[trigger] v2.nodes[j] == v0.nodes[j] by {
                    assert(v1.nodes[j] == v0.nodes[j]);
                }
            }
        }
        i
    }

    /// A copy of a node.
    fn copy_node(n: &ConceptNode) -> (c: ConceptNode)
        ensures
            c@ == n@,
    {
        ConceptNode {
            id: n.id,
            category: n.category,
            name: n.name.clone(),
            confidence_bits: n.confidence_bits,
            first_observed_at: n.first_observed_at,
            last_updated_at: n.last_updated_at,
            origin_planet_seed: n.origin_planet_seed,
            observations: Self::copy_observations(&n.observations),
        }
    }

    /// A copy of a list of observations.
    fn copy_observations(os: &Vec<NodeObservation>) -> (c: Vec<NodeObservation>)
        ensures
            obs_views(c@) == obs_views(os@),
    {
        let mut c: Vec<NodeObservation> = Vec::new();
        let mut i: usize = 0;
        while i < os.len()
            invariant
                i <= os@.len(),
                c@.len() == i,
                forall|t: int| 0 <= t < i ==> (#[trigger] c@[t])@ == os@[t]@,
            decreases os@.len() - i,
        {
            let o = &os[i];
            c.push(NodeObservation {
                category: o.category,
                description: o.description.clone(),
                confidence_bits: o.confidence_bits,
                recorded_at: o.recorded_at,
            });
            i = i + 1;
        }
        assert(obs_views(c@) =~= obs_views(os@));
        c
    }

    /// The graph's nodes and edges, by index, for saving.
    pub fn to_parts(&self) -> (r: (Vec<ConceptNode>, Vec<(u32, u32, ConceptEdge)>))
        requires
            self.wf(),
        ensures
            node_views(r.0@) == self@.nodes,
            r.1@ == self@.edges,
    {
        let n = graph_node_count(&self.graph);
        let mut nodes: Vec<ConceptNode> = Vec::new();
        let mut i: usize = 0;
        while i < n
            invariant
                n == self@.nodes.len(),
                self.wf(),
                i <= n,
                nodes@.len() == i,
                node_views(nodes@) == self@.nodes.take(i as int),
            decreases n - i,
        {
            let c = Self::copy_node(graph_node(&self.graph, i as u32));
            let ghost before = nodes@;
            nodes.push(c);
            proof {
                assert forall|a: int| 0 <= a < i + 1 implies #[trigger] node_views(nodes@)[a] == self@.nodes.take(i + 1)[a] by {
                    if a < i {
                        assert(nodes@[a] == before[a]);
                        assert(node_views(before)[a] == self@.nodes.take(i as int)[a]);
                    }
                }
            }
            i = i + 1;
            assert(node_views(nodes@) =~= self@.nodes.take(i as int));
        }
        let m = graph_edge_count(&self.graph);
        let mut edges: Vec<(u32, u32, ConceptEdge)> = Vec::new();
        let mut k: usize = 0;
        while k < m
            invariant
                m == self@.edges.len(),
                self.wf(),
                k <= m,
                edges@ == self@.edges.take(k as int),
            decreases m - k,
        {
            edges.push(graph_edge(&self.graph, k as u32));
            k = k + 1;
            assert(edges@ =~= self@.edges.take(k as int));
        }
        assert(self@.nodes.take(n as int) =~= self@.nodes);
        assert(self@.edges.take(m as int) =~= self@.edges);
        (nodes, edges)
    }

    /// Rebuilds a graph from saved nodes and edges, by index; `None` when
    /// they break a condition every graph keeps.
    pub fn from_parts(nodes: &Vec<ConceptNode>, edges: &Vec<(u32, u32, ConceptEdge)>) -> (r: Option<KnowledgeGraph>)
        ensures
            r is Some <==> view_wf(KGView { nodes: node_views(nodes@), edges: edges@ }),
            r matches Some(g) ==> g.wf() && g@ == (KGView { nodes: node_views(nodes@), edges: edges@ }),
            r matches Some(g) ==> tick_sorted(g.timeline_spec()) && forall|x: (u64, u32)|
                #[trigger] g.timeline_spec().contains(x) <==> (x.1 as int) < nodes@.len() && x.0
                    == nodes@[x.1 as int].first_observed_at,
    {
        let ghost v = KGView { nodes: node_views(nodes@), edges: edges@ };
        let n = nodes.len();
        let m = edges.len();
        if n > 0xFFFF_FFFFusize || m > 0xFFFF_FFFFusize {
            return None;
        }
        let mut i: usize = 0;
        while i < n
            invariant
                n == nodes@.len(),
                v.nodes == node_views(nodes@),
                i <= n,
                forall|a: int, b: int| 0 <= a < b < n && a < i ==> v.nodes[a].id != v.nodes[b].id,
            decreases n - i,
        {
            let mut j: usize = i + 1;
            while j < n
                invariant
                    n == nodes@.len(),
                    v.nodes == node_views(nodes@),
                    i < n,
                    i + 1 <= j <= n,
                    forall|a: int, b: int| 0 <= a < b < n && a < i ==> v.nodes[a].id != v.nodes[b].id,
                    forall|b: int| i < b < j ==> v.nodes[i as int].id != v.nodes[b].id,
                decreases n - j,
            {
                if nodes[i].id == nodes[j].id {
                    proof {
                        assert(v.nodes[i as int].id == v.nodes[j as int].id);
                    }
                    return None;
                }
                j = j + 1;
            }
            i = i + 1;
        }
        let mut k: usize = 0;
        while k < m
            invariant
                n == v.nodes.len(),
                m == edges@.len(),
                v == (KGView { nodes: node_views(nodes@), edges: edges@ }),
                k <= m,
                forall|a: int| 0 <= a < k ==> (#[trigger] v.edges[a]).0 < n && v.edges[a].1 < n,
                forall|a: int, b: int| 0 <= a < b < m && a < k ==> !same_link(v.edges[b], v.edges[a].0, v.edges[a].1, v.edges[a].2.relationship),
            decreases m - k,
        {
            let (from, to, e) = edges[k];
            if from as usize >= n || to as usize >= n {
                proof {
                    assert(v.edges[k as int] == (from, to, e));
                    assert(!((v.edges[k as int]).0 < v.nodes.len() && v.edges[k as int].1 < v.nodes.len()));
                    assert(!view_wf(v));
                }
                return None;
            }
            let mut j: usize = k + 1;
            while j < m
                invariant
                    m == edges@.len(),
                    v == (KGView { nodes: node_views(nodes@), edges: edges@ }),
                    k < m,
                    k + 1 <= j <= m,
                    (from, to, e) == v.edges[k as int],
                    forall|a: int, b: int| 0 <= a < b < m && a < k ==> !same_link(v.edges[b], v.edges[a].0, v.edges[a].1, v.edges[a].2.relationship),
                    forall|b: int| k < b < j ==> !same_link(v.edges[b], from, to, e.relationship),
                decreases m - j,
            {
                let (f2, t2, e2) = edges[j];
                if f2 == from && t2 == to && e2.relationship == e.relationship {
                    return None;
                }
                j = j + 1;
            }
            k = k + 1;
        }
        let mut g = KnowledgeGraph { graph: graph_new(), timeline: Vec::new() };
        let mut i: usize = 0;
        while i < n
            invariant
                n == nodes@.len(),
                n <= u32::MAX,
                v.nodes == node_views(nodes@),
                i <= n,
                g@.nodes == v.nodes.take(i as int),
                g@.edges == Seq::<(u32, u32, ConceptEdge)>::empty(),
            decreases n - i,
        {
            let c = Self::copy_node(&nodes[i]);
            graph_add_node(&mut g.graph, c);
            i = i + 1;
            assert(g@.nodes =~= v.nodes.take(i as int));
        }
        assert(v.nodes.take(n as int) =~= v.nodes);
        let mut k: usize = 0;
        while k < m
            invariant
                n == v.nodes.len(),
                m == edges@.len(),
                m <= u32::MAX,
                v.edges == edges@,
                k <= m,
                g@.nodes == v.nodes,
                g@.edges == v.edges.take(k as int),
                forall|a: int| 0 <= a < m ==> (#[trigger] v.edges[a]).0 < n && v.edges[a].1 < n,
            decreases m - k,
        {
            let (from, to, e) = edges[k];
            graph_add_edge(&mut g.graph, from, to, e);
            k = k + 1;
            assert(g@.edges =~= v.edges.take(k as int));
        }
        assert(v.edges.take(m as int) =~= v.edges);
        g.timeline = Self::sorted_timeline(nodes);
        Some(g)
    }

    /// Each node's first-observed tick with its index, sorted by tick and,
    /// among equal ticks, by index.
    fn sorted_timeline(nodes: &Vec<ConceptNode>) -> (t: Vec<(u64, u32)>)
        requires
            nodes@.len() <= u32::MAX,
        ensures
            tick_sorted(t@),
            forall|x: (u64, u32)| #[trigger] t@.contains(x) <==> (x.1 as int) < nodes@.len() && x.0
                == nodes@[x.1 as int].first_observed_at,
    {
        let n = nodes.len();
        let mut t: Vec<(u64, u32)> = Vec::new();
        let mut i: usize = 0;
        while i < n
            invariant
                n == nodes@.len(),
                n <= u32::MAX,
                i <= n,
                tick_sorted(t@),
                forall|x: (u64, u32)| #[trigger] t@.contains(x) <==> (x.1 as int) < i && x.0
                    == nodes@[x.1 as int].first_observed_at,
                forall|a: int| 0 <= a < t@.len() ==> (#[trigger] t@[a]).1 < i,
            decreases n - i,
        {
            let x = (nodes[i].first_observed_at, i as u32);
            let mut p: usize = 0;
            let mut found = false;
            while p < t.len() && !found
                invariant
                    p <= t@.len(),
                    forall|a: int| 0 <= a < p ==> (#[trigger] t@[a]).0 <= x.0,
                    found ==> p < t@.len() && t@[p as int].0 > x.0,
                decreases t@.len() - p + (if found { 0int } else { 1int }),
            {
                if t[p].0 > x.0 {
                    found = true;
                } else {
                    p = p + 1;
                }
            }
            let ghost t0 = t@;
            t.insert(p, x);
            proof {
                let t1 = t@;
                assert(t1 =~= t0.insert(p as int, x));
                assert forall|y: (u64, u32)| #[trigger] t1.contains(y) <==> (y.1 as int) < i + 1 && y.0
                    == nodes@[y.1 as int].first_observed_at by {
                    if t1.contains(y) {
                        let k = choose|k: int| 0 <= k < t1.len() && t1[k] == y;
                        if k < p {
                            assert(t0[k] == y);
                            assert(t0.contains(y));
                        } else if k > p {
                            assert(t0[k - 1] == y);
                            assert(t0.contains(y));
                        }
                    }
                    if (y.1 as int) < i + 1 && y.0 == nodes@[y.1 as int].first_observed_at {
                        if y.1 as int == i {
                            assert(t1[p as int] == y);
                        } else {
                            assert(t0.contains(y));
                            let k = choose|k: int| 0 <= k < t0.len() && t0[k] == y;
                            if k < p {
                                assert(t1[k] == y);
                            } else {
                                assert(t1[k + 1] == y);
                            }
                        }
                    }
                }
                assert forall|a: int, b: int| 0 <= a < b < t1.len() implies (#[trigger] t1[a]).0 < (#[trigger] t1[b]).0
                    || (t1[a].0 == t1[b].0 && t1[a].1 < t1[b].1) by {
                    if b < p {
                        assert(t1[a] == t0[a] && t1[b] == t0[b]);
                    } else if a > p {
                        assert(t1[a] == t0[a - 1] && t1[b] == t0[b - 1]);
                    } else if a < p && b > p {
                        assert(t1[a] == t0[a] && t1[b] == t0[b - 1]);
                    } else if a < p && b == p {
                        assert(t1[a] == t0[a]);
                        assert(t0[a].1 < i);
                    } else {
                        assert(t1[b] == t0[b - 1]);
                        assert(found);
                        if b - 1 > p {
                            assert(t0[p as int].0 <= t0[b - 1].0);
                        }
                    }
                }
                assert forall|a: int| 0 <= a < t1.len() implies (#[trigger] t1[a]).1 < i + 1 by {
                    if a < p {
                        assert(t1[a] == t0[a]);
                    } else if a > p {
                        assert(t1[a] == t0[a - 1]);
                    }
                }
            }
            i = i + 1;
        }
        t
    }

    /// The nodes of `sel`, sorted by name, the earlier-created first among
    /// equal names.
    fn sort_by_name(&self, sel: &Vec<u32>) -> (r: Vec<u32>)
        requires
            self.wf(),
            forall|i: int| 0 <= i < sel@.len() ==> (#[trigger] sel@[i] as int) < self@.nodes.len(),
            forall|i: int, j: int| 0 <= i < j < sel@.len() ==> #[trigger] sel@[i] < #[trigger] sel@[j],
        ensures
            forall|x: u32| #[trigger] r@.contains(x) <==> sel@.contains(x),
            sorted_by_name(self@, r@),
    {
        let ghost v = self@;
        let mut r: Vec<u32> = Vec::new();
        let mut i: usize = 0;
        while i < sel.len()
            invariant
                self.wf(),
                v == self@,
                forall|a: int| 0 <= a < sel@.len() ==> (#[trigger] sel@[a] as int) < v.nodes.len(),
                forall|a: int, b: int| 0 <= a < b < sel@.len() ==> #[trigger] sel@[a] < #[trigger] sel@[b],
                i <= sel@.len(),
                forall|x: u32| #[trigger] r@.contains(x) <==> sel@.take(i as int).contains(x),
                forall|a: int| 0 <= a < r@.len() ==> (#[trigger] r@[a] as int) < v.nodes.len(),
                forall|a: int| 0 <= a < r@.len() ==> i > 0 && #[trigger] r@[a] <= sel@[i - 1],
                sorted_by_name(v, r@),
            decreases sel@.len() - i,
        {
            let x = sel[i];
            let xn = graph_node(&self.graph, x).name.as_str();
            let mut p: usize = 0;
            let mut found = false;
            while p < r.len() && !found
                invariant
                    self.wf(),
                    v == self@,
                    (x as int) < v.nodes.len(),
                    xn@ == v.nodes[x as int].name,
                    p <= r@.len(),
                    forall|a: int| 0 <= a < r@.len() ==> (#[trigger] r@[a] as int) < v.nodes.len(),
                    forall|a: int| 0 <= a < p ==> !seq_lt(xn@, v.nodes[#[trigger] r@[a] as int].name),
                    found ==> p < r@.len() && seq_lt(xn@, v.nodes[r@[p as int] as int].name),
                decreases r@.len() - p + (if found { 0int } else { 1int }),
            {
                if str_lt(xn, graph_node(&self.graph, r[p]).name.as_str()) {
                    found = true;
                } else {
                    p = p + 1;
                }
            }
            let ghost r0 = r@;
            r.insert(p, x);
            proof {
                let r1 = r@;
                let s0 = sel@.take(i as int);
                let s1 = sel@.take(i + 1);
                assert(r1 =~= r0.insert(p as int, x));
                assert(s1 =~= s0.push(sel@[i as int]));
                assert forall|y: u32| #[trigger] r1.contains(y) <==> s1.contains(y) by {
                    if r1.contains(y) {
                        let t = choose|t: int| 0 <= t < r1.len() && r1[t] == y;
                        if t < p {
                            assert(r0[t] == y);
                            assert(r0.contains(y));
                        } else if t > p {
                            assert(r0[t - 1] == y);
                            assert(r0.contains(y));
                        }
                        if y != x {
                            assert(s0.contains(y));
                            let u = choose|u: int| 0 <= u < s0.len() && s0[u] == y;
                            assert(s1[u] == y);
                        } else {
                            assert(s1[i as int] == y);
                        }
                    }
                    if s1.contains(y) {
                        let u = choose|u: int| 0 <= u < s1.len() && s1[u] == y;
                        if u == i {
                            assert(r1[p as int] == y);
                        } else {
                            assert(s0[u] == y);
                            assert(r0.contains(y));
                            let t = choose|t: int| 0 <= t < r0.len() && r0[t] == y;
                            if t < p {
                                assert(r1[t] == y);
                            } else {
                                assert(r1[t + 1] == y);
                            }
                        }
                    }
                }
                assert forall|a: int| 0 <= a < r0.len() implies #[trigger] r0[a] < x by {
                    assert(i > 0 && r0[a] <= sel@[i - 1]);
                    assert(sel@[i - 1] < sel@[i as int]);
                }
                assert forall|a: int, b: int| 0 <= a < b < r1.len() implies name_before(v, #[trigger] r1[a] as int, #[trigger] r1[b] as int) by {
                    if b < p {
                        assert(r1[a] == r0[a] && r1[b] == r0[b]);
                    } else if a > p {
                        assert(r1[a] == r0[a - 1] && r1[b] == r0[b - 1]);
                    } else if a < p && b > p {
                        assert(r1[a] == r0[a] && r1[b] == r0[b - 1]);
                    } else if a < p && b == p {
                        assert(r1[a] == r0[a]);
                        assert(!seq_lt(xn@, v.nodes[r0[a] as int].name));
                        if v.nodes[r0[a] as int].name != v.nodes[x as int].name {
                            lemma_seq_lt_total(v.nodes[r0[a] as int].name, v.nodes[x as int].name);
                        }
                    } else {
                        assert(a == p && b > p);
                        assert(r1[b] == r0[b - 1]);
                        assert(found);
                        if b - 1 > p {
                            assert(name_before(v, r0[p as int] as int, r0[b - 1] as int));
                            if seq_lt(v.nodes[r0[p as int] as int].name, v.nodes[r0[b - 1] as int].name) {
                                lemma_seq_lt_transitive(v.nodes[x as int].name, v.nodes[r0[p as int] as int].name, v.nodes[r0[b - 1] as int].name);
                            }
                        }
                    }
                }
                assert forall|a: int| 0 <= a < r1.len() implies i + 1 > 0 && #[trigger] r1[a] <= sel@[i as int] by {
                    if a < p {
                        assert(r1[a] == r0[a]);
                    } else if a > p {
                        assert(r1[a] == r0[a - 1]);
                    }
                }
            }
            i = i + 1;
        }
        assert(sel@.take(sel@.len() as int) =~= sel@);
        r
    }

    /// The named nodes that are no locations, sorted by name, the
    /// earlier-created first among equal names.
    pub fn nodes_sorted_by_name(&self) -> (r: Vec<u32>)
        requires
            self.wf(),
        ensures
            forall|x: u32| #[trigger] r@.contains(x) <==> (x as int) < self@.nodes.len() && journal_listed(self@, x as int),
            sorted_by_name(self@, r@),
    {
        let n = graph_node_count(&self.graph);
        let mut sel: Vec<u32> = Vec::new();
        let mut i: usize = 0;
        while i < n
            invariant
                n == self@.nodes.len(),
                self.wf(),
                i <= n,
                forall|x: u32| #[trigger] sel@.contains(x) <==> (x as int) < i && journal_listed(self@, x as int),
                forall|a: int| 0 <= a < sel@.len() ==> (#[trigger] sel@[a] as int) < i,
                forall|a: int, b: int| 0 <= a < b < sel@.len() ==> #[trigger] sel@[a] < #[trigger] sel@[b],
            decreases n - i,
        {
            let node = graph_node(&self.graph, i as u32);
            if !node.name.as_str().is_empty() && node.category != ConceptCategory::Location {
                let ghost s0 = sel@;
                sel.push(i as u32);
                proof {
                    assert forall|x: u32| #[trigger] sel@.contains(x) <==> (x as int) < i + 1 && journal_listed(self@, x as int) by {
                        if x == i as u32 {
                            assert(sel@[s0.len() as int] == x);
                        } else if s0.contains(x) {
                            let a = choose|a: int| 0 <= a < s0.len() && s0[a] == x;
                            assert(sel@[a] == x);
                        } else if sel@.contains(x) {
                            let a = choose|a: int| 0 <= a < sel@.len() && sel@[a] == x;
                            assert(a < s0.len());
                            assert(s0[a] == x);
                        }
                    }
                }
            } else {
                proof {
                    assert forall|x: u32| #[trigger] sel@.contains(x) <==> (x as int) < i + 1 && journal_listed(self@, x as int) by {
                        if x == i as u32 && sel@.contains(x) {
                            let a = choose|a: int| 0 <= a < sel@.len() && sel@[a] == x;
                        }
                    }
                }
            }
            i = i + 1;
        }
        proof {
            assert forall|a: int| 0 <= a < sel@.len() implies (#[trigger] sel@[a] as int) < self@.nodes.len() by {}
        }
        self.sort_by_name(&sel)
    }

    /// The nodes of a category, sorted by name, the earlier-created first
    /// among equal names.
    pub fn nodes_in_category_sorted_by_name(&self, category: ConceptCategory) -> (r: Vec<u32>)
        requires
            self.wf(),
        ensures
            forall|x: u32| #[trigger] r@.contains(x) <==> (x as int) < self@.nodes.len() && self@.nodes[x as int].category == category,
            sorted_by_name(self@, r@),
    {
        let sel = self.by_category(category);
        proof {
            assert forall|a: int| 0 <= a < sel@.len() implies (#[trigger] sel@[a] as int) < self@.nodes.len() by {
                assert(sel@.contains(sel@[a]));
            }
        }
        self.sort_by_name(&sel)
    }

    /// Removes the concept `key`, if known, with every relationship that
    /// touches it. The last node moves into the freed index, and the
    /// timeline is rebuilt in tick order.
    pub fn remove(&mut self, key: &ConceptKey)
        requires
            old(self).wf(),
        ensures
            final(self).wf(),
            old(self).lookup_spec(ConceptId(*key)) is None ==> final(self)@ == old(self)@
                && final(self).timeline_spec() == old(self).timeline_spec(),
            old(self).lookup_spec(ConceptId(*key)) matches Some(i) ==> {
                &&& final(self)@.nodes == swap_removed(old(self)@.nodes, i as int)
                &&& final(self)@.edges == edges_without(old(self)@.edges, i, (old(self)@.nodes.len() - 1) as u32)
                &&& tick_sorted(final(self).timeline_spec())
                &&& forall|x: (u64, u32)| #[trigger] final(self).timeline_spec().contains(x) <==> (x.1 as int)
                    < final(self)@.nodes.len() && x.0 == final(self)@.nodes[x.1 as int].first_observed_at
            },
    {
        let found = self.lookup(&ConceptId(*key));
        if let Some(i) = found {
            proof {
                lemma_find_from(self@.nodes, ConceptId(*key), 0);
            }
            let ghost v = self@;
            let (nodes, edges) = self.to_parts();
            let n = nodes.len();
            proof {
                assert(node_views(nodes@).len() == nodes@.len());
            }
            let last = n - 1;
            let mut nn: Vec<ConceptNode> = Vec::new();
            let mut j: usize = 0;
            while j < last
                invariant
                    node_views(nodes@) == v.nodes,
                    n == nodes@.len(),
                    last == n - 1,
                    i < n,
                    j <= last,
                    nn@.len() == j,
                    node_views(nn@) == swap_removed(v.nodes, i as int).take(j as int),
                decreases last - j,
            {
                let src = if j == i as usize { last } else { j };
                let c = Self::copy_node(&nodes[src]);
                let ghost before = nn@;
                nn.push(c);
                proof {
                    assert(node_views(nodes@)[src as int] == nodes@[src as int]@);
                    assert forall|t: int| 0 <= t < j + 1 implies #[trigger] node_views(nn@)[t] == swap_removed(v.nodes, i as int).take(j + 1)[t] by {
                        if t < j {
                            assert(nn@[t] == before[t]);
                            assert(node_views(before)[t] == swap_removed(v.nodes, i as int).take(j as int)[t]);
                        }
                    }
                }
                j = j + 1;
                assert(node_views(nn@) =~= swap_removed(v.nodes, i as int).take(j as int));
            }
            assert(swap_removed(v.nodes, i as int).take(last as int) =~= swap_removed(v.nodes, i as int));
            let ghost li = last as u32;
            let mut ne: Vec<(u32, u32, ConceptEdge)> = Vec::new();
            let mut k: usize = 0;
            while k < edges.len()
                invariant
                    edges@ == v.edges,
                    i < n,
                    n <= u32::MAX,
                    last == n - 1,
                    li == last as u32,
                    k <= edges@.len(),
                    ne@ == edges_without(edges@.take(k as int), i, li),
                decreases edges@.len() - k,
            {
                let (a, b, e) = edges[k];
                proof {
                    assert(edges@.take(k + 1).drop_last() =~= edges@.take(k as int));
                    assert(edges@.take(k + 1).last() == (a, b, e));
                }
                if a != i && b != i {
                    let ra = if a as usize == last { i } else { a };
                    let rb = if b as usize == last { i } else { b };
                    ne.push((ra, rb, e));
                }
                k = k + 1;
            }
            assert(edges@.take(edges@.len() as int) =~= edges@);
            proof {
                let w = KGView { nodes: node_views(nn@), edges: ne@ };
                lemma_edges_without(v.edges, i, li, n as int);
                assert forall|a: int, b: int| 0 <= a < b < w.nodes.len() implies w.nodes[a].id != w.nodes[b].id by {
                    let sa = if a == i { last as int } else { a };
                    let sb = if b == i { last as int } else { b };
                    assert(w.nodes[a] == v.nodes[sa]);
                    assert(w.nodes[b] == v.nodes[sb]);
                    if sa < sb {
                        assert(v.nodes[sa].id != v.nodes[sb].id);
                    } else {
                        assert(v.nodes[sb].id != v.nodes[sa].id);
                    }
                }
                assert(w.nodes.len() == last);
                assert(ne@ == edges_without(v.edges, i, li));
                assert forall|q: int| 0 <= q < w.edges.len() implies (#[trigger] w.edges[q]).0 < w.nodes.len() && w.edges[q].1 < w.nodes.len() by {
                    assert(edges_without(v.edges, i, li)[q].0 < li);
                }
                assert(view_wf(w));
            }
            let rebuilt = Self::from_parts(&nn, &ne);
            if let Some(g) = rebuilt {
                *self = g;
            }
        } else {
        }
    }
}

} // verus!
