//! In-memory graph: vertices, outgoing adjacency lists and a reverse index.

use std::collections::HashMap;

use vstd::prelude::*;

use crate::binary64::{in_unit_interval, is_unit_interval};
use crate::error::ConectaStoreError;
use crate::models::{Edge, Node, NodeId, NodeView, RelationType};

verus! {

/// The graph as a mathematical value.
///
/// `order` lists the vertices in insertion order; `outgoing[a]` lists the
/// relations that leave `a` and `incoming[b]` those that arrive at `b`. An
/// incoming entry keeps the relation's original direction: its `destination`
/// is the vertex the relation leaves.
#[verifier::ext_equal]
pub struct GraphView {
    pub order: Seq<NodeId>,
    pub nodes: Map<NodeId, NodeView>,
    pub outgoing: Map<NodeId, Seq<Edge>>,
    pub incoming: Map<NodeId, Seq<Edge>>,
}

/// Which kinds of vertex a relation may join.
pub open spec fn relationship_allowed(from: NodeId, to: NodeId, relation: RelationType) -> bool {
    match relation {
        RelationType::Purchase | RelationType::Interest | RelationType::Rating => {
            from is Client && to is Product
        },
        RelationType::BelongsToCategory => from is Product && to is Category,
        RelationType::Similarity => from is Product && to is Product && from != to,
    }
}

/// The entry at `i` joins `destination` through `relation`.
pub open spec fn matches_key(edges: Seq<Edge>, i: int, destination: NodeId, relation: RelationType) -> bool {
    0 <= i < edges.len() && edges[i].destination == destination && edges[i].relation == relation
}

/// No two entries of the list join the same vertex through the same relation.
pub open spec fn distinct_keys(edges: Seq<Edge>) -> bool {
    forall|i: int, j: int|
        0 <= i < edges.len() && 0 <= j < edges.len() && i != j ==> !(
        #[trigger] edges[i].destination == #[trigger] edges[j].destination && edges[i].relation
            == edges[j].relation)
}

/// The weight of the entry that joins `destination` through `relation`, if any.
pub open spec fn find_weight(edges: Seq<Edge>, destination: NodeId, relation: RelationType) -> Option<u64> {
    if exists|i: int| matches_key(edges, i, destination, relation) {
        Some(edges[choose|i: int| matches_key(edges, i, destination, relation)].weight_bits)
    } else {
        None
    }
}

/// The list after recording `destination`/`relation` with `weight_bits`: the
/// entry with that key gets the new weight, or a new entry is appended.
pub open spec fn upsert(edges: Seq<Edge>, destination: NodeId, relation: RelationType, weight_bits: u64) -> Seq<Edge> {
    let entry = Edge { destination, relation, weight_bits };
    if exists|i: int| matches_key(edges, i, destination, relation) {
        edges.update(choose|i: int| matches_key(edges, i, destination, relation), entry)
    } else {
        edges.push(entry)
    }
}

/// The total length of the lists of the first `n` vertices of `order`.
pub open spec fn list_total(order: Seq<NodeId>, lists: Map<NodeId, Seq<Edge>>, n: nat) -> nat
    decreases n,
{
    if n == 0 {
        0
    } else {
        list_total(order, lists, (n - 1) as nat) + lists[order[n - 1]].len()
    }
}

/// The number of relations, counted over the outgoing lists of the first `n`
/// vertices in insertion order.
pub open spec fn count_edges(v: GraphView, n: nat) -> nat {
    list_total(v.order, v.outgoing, n)
}

/// Summing over more vertices never gives less.
pub proof fn lemma_list_total_monotonic(order: Seq<NodeId>, lists: Map<NodeId, Seq<Edge>>, m: nat, n: nat)
    requires
        m <= n,
    ensures
        list_total(order, lists, m) <= list_total(order, lists, n),
    decreases n - m,
{
    if m < n {
        lemma_list_total_monotonic(order, lists, m, (n - 1) as nat);
    }
}

impl GraphView {
    /// The graph with no vertex.
    pub open spec fn empty() -> GraphView {
        GraphView { order: Seq::empty(), nodes: Map::empty(), outgoing: Map::empty(), incoming: Map::empty() }
    }

    /// The graph holds a vertex with this identifier.
    pub open spec fn contains(self, id: NodeId) -> bool {
        self.nodes.contains_key(id)
    }

    /// The number of relations.
    pub open spec fn edge_total(self) -> nat {
        count_edges(self, self.order.len())
    }

    /// The total length of the reverse indexes.
    pub open spec fn incoming_total(self) -> nat {
        list_total(self.order, self.incoming, self.order.len())
    }

    /// The entry `i` of `outgoing[a]` is a valid stored relation.
    pub open spec fn valid_out_entry(self, a: NodeId, i: int) -> bool {
        let e = self.outgoing[a][i];
        &&& self.contains(e.destination)
        &&& relationship_allowed(a, e.destination, e.relation)
        &&& is_unit_interval(e.weight_bits)
    }

    /// The entry `i` of `incoming[b]` is a valid stored relation.
    pub open spec fn valid_in_entry(self, b: NodeId, i: int) -> bool {
        let e = self.incoming[b][i];
        &&& self.contains(e.destination)
        &&& relationship_allowed(e.destination, b, e.relation)
        &&& is_unit_interval(e.weight_bits)
    }

    /// The graph with one more vertex, which has no relations yet.
    pub open spec fn insert_node(self, n: NodeView) -> GraphView {
        GraphView {
            order: self.order.push(n.id()),
            nodes: self.nodes.insert(n.id(), n),
            outgoing: self.outgoing.insert(n.id(), Seq::empty()),
            incoming: self.incoming.insert(n.id(), Seq::empty()),
        }
    }

    /// The graph after recording the relation `from -> to` with `weight_bits`,
    /// in the outgoing list of `from` and in the reverse index of `to`.
    pub open spec fn connect_edges(self, from: NodeId, to: NodeId, relation: RelationType, weight_bits: u64) -> GraphView {
        GraphView {
            order: self.order,
            nodes: self.nodes,
            outgoing: self.outgoing.insert(from, upsert(self.outgoing[from], to, relation, weight_bits)),
            incoming: self.incoming.insert(to, upsert(self.incoming[to], from, relation, weight_bits)),
        }
    }

    /// Why a relation `from -> to` is refused, checked in this order: a missing
    /// origin, a missing destination, a weight outside `0.0..=1.0` (or not
    /// finite), and vertex kinds that the relation may not join.
    pub open spec fn connect_error(self, from: NodeId, to: NodeId, relation: RelationType, weight_bits: u64) -> Option<ConectaStoreError> {
        if !self.contains(from) {
            Some(ConectaStoreError::NodeNotFound(from))
        } else if !self.contains(to) {
            Some(ConectaStoreError::NodeNotFound(to))
        } else if !is_unit_interval(weight_bits) {
            Some(ConectaStoreError::InvalidWeight(weight_bits))
        } else if !relationship_allowed(from, to, relation) {
            Some(ConectaStoreError::InvalidRelationship { from, to })
        } else {
            None
        }
    }

    /// The invariant that every graph built by this library satisfies.
    pub open spec fn well_formed(self) -> bool {
        &&& self.order.no_duplicates()
        &&& forall|id: NodeId| #[trigger] self.contains(id) <==> self.order.contains(id)
        &&& self.outgoing.dom() == self.nodes.dom()
        &&& self.incoming.dom() == self.nodes.dom()
        &&& self.edge_total() == self.incoming_total()
        &&& forall|id: NodeId| #[trigger]
            self.contains(id) ==> {
                &&& self.nodes[id].id() == id
                &&& self.outgoing.contains_key(id)
                &&& self.incoming.contains_key(id)
                &&& distinct_keys(self.outgoing[id])
                &&& distinct_keys(self.incoming[id])
            }
        &&& forall|a: NodeId, i: int|
            self.contains(a) && 0 <= i < self.outgoing[a].len() ==> #[trigger] self.valid_out_entry(a, i)
        &&& forall|b: NodeId, i: int|
            self.contains(b) && 0 <= i < self.incoming[b].len() ==> #[trigger] self.valid_in_entry(b, i)
        &&& forall|a: NodeId, b: NodeId, r: RelationType|
            self.contains(a) && self.contains(b) ==> #[trigger] find_weight(self.outgoing[a], b, r)
                == #[trigger] find_weight(self.incoming[b], a, r)
    }
}

/// Adding a vertex that is not yet present keeps the graph well formed.
pub proof fn lemma_insert_node_well_formed(v: GraphView, n: NodeView)
    requires
        v.well_formed(),
        !v.contains(n.id()),
    ensures
        v.insert_node(n).well_formed(),
{
    let w = v.insert_node(n);
    let id = n.id();
    lemma_list_total_prefix(v.order, v.outgoing, w.order, w.outgoing, v.order.len());
    lemma_list_total_prefix(v.order, v.incoming, w.order, w.incoming, v.order.len());
    assert(w.order[v.order.len() as int] == id);
    assert forall|x: NodeId| #[trigger] w.contains(x) <==> w.order.contains(x) by {
        if x != id {
            assert(v.contains(x) <==> v.order.contains(x));
            if w.order.contains(x) {
                let k = choose|k: int| 0 <= k < w.order.len() && w.order[k] == x;
                assert(v.order[k] == x);
            }
            if v.order.contains(x) {
                let k = choose|k: int| 0 <= k < v.order.len() && v.order[k] == x;
                assert(w.order[k] == x);
            }
        } else {
            assert(w.order[w.order.len() - 1] == x);
        }
    }
    assert(w.order.no_duplicates()) by {
        assert forall|i: int, j: int| 0 <= i < w.order.len() && 0 <= j < w.order.len() && i != j
            implies w.order[i] != w.order[j] by {
            if i < v.order.len() && j < v.order.len() {
            } else if i < v.order.len() {
                assert(v.order.contains(v.order[i]));
            } else {
                assert(v.order.contains(v.order[j]));
            }
        }
    }
    assert forall|x: NodeId| #[trigger] w.contains(x) implies {
        &&& w.nodes[x].id() == x
        &&& w.outgoing.contains_key(x)
        &&& w.incoming.contains_key(x)
        &&& distinct_keys(w.outgoing[x])
        &&& distinct_keys(w.incoming[x])
    } by {
        if x != id {
            assert(v.contains(x));
        }
    }
    assert forall|a: NodeId, i: int|
        w.contains(a) && 0 <= i < w.outgoing[a].len() implies #[trigger] w.valid_out_entry(a, i) by {
        assert(a != id);
        assert(v.valid_out_entry(a, i));
    }
    assert forall|b: NodeId, i: int|
        w.contains(b) && 0 <= i < w.incoming[b].len() implies #[trigger] w.valid_in_entry(b, i) by {
        assert(b != id);
        assert(v.valid_in_entry(b, i));
    }
    assert forall|a: NodeId, b: NodeId, r: RelationType| w.contains(a) && w.contains(b) implies
        #[trigger] find_weight(w.outgoing[a], b, r) == #[trigger] find_weight(w.incoming[b], a, r) by {
        if a == id {
            assert(!exists|i: int| matches_key(w.outgoing[a], i, b, r));
            if b != id {
                assert forall|i: int| !matches_key(w.incoming[b], i, a, r) by {
                    if 0 <= i < w.incoming[b].len() {
                        assert(v.valid_in_entry(b, i));
                    }
                }
            }
        } else if b == id {
            assert(!exists|i: int| matches_key(w.incoming[b], i, a, r));
            assert forall|i: int| !matches_key(w.outgoing[a], i, b, r) by {
                if 0 <= i < w.outgoing[a].len() {
                    assert(v.valid_out_entry(a, i));
                }
            }
        } else {
            assert(find_weight(v.outgoing[a], b, r) == find_weight(v.incoming[b], a, r));
        }
    }
}

/// What recording a key does to a list of relations.
pub proof fn lemma_upsert(edges: Seq<Edge>, destination: NodeId, relation: RelationType, weight_bits: u64)
    requires
        distinct_keys(edges),
    ensures
        ({
            let up = upsert(edges, destination, relation, weight_bits);
            &&& distinct_keys(up)
            &&& find_weight(up, destination, relation) == Some(weight_bits)
            &&& forall|d: NodeId, r: RelationType|
                !(d == destination && r == relation) ==> #[trigger] find_weight(up, d, r) == find_weight(edges, d, r)
            &&& forall|i: int| 0 <= i < up.len() ==> (#[trigger] up[i] == Edge { destination, relation, weight_bits }
                || (i < edges.len() && up[i] == edges[i]))
            &&& up.len() == edges.len() || up.len() == edges.len() + 1
        }),
{
    let up = upsert(edges, destination, relation, weight_bits);
    let entry = Edge { destination, relation, weight_bits };
    if exists|i: int| matches_key(edges, i, destination, relation) {
        let k = choose|i: int| matches_key(edges, i, destination, relation);
        assert(up == edges.update(k, entry));
        assert(matches_key(up, k, destination, relation));
        assert forall|i: int| matches_key(up, i, destination, relation) implies i == k by {
            if i != k {
                assert(edges[i] == up[i]);
                assert(edges[i].destination == edges[k].destination);
            }
        }
        assert(distinct_keys(up)) by {
            assert forall|i: int, j: int|
                0 <= i < up.len() && 0 <= j < up.len() && i != j implies !(
                #[trigger] up[i].destination == #[trigger] up[j].destination && up[i].relation
                    == up[j].relation) by {
                if i != k && j != k {
                    assert(edges[i].destination == up[i].destination && edges[j].destination == up[j].destination);
                } else if i == k {
                    assert(!matches_key(up, j, destination, relation));
                } else {
                    assert(!matches_key(up, i, destination, relation));
                }
            }
        }
        assert forall|d: NodeId, r: RelationType| !(d == destination && r == relation) implies
            #[trigger] find_weight(up, d, r) == find_weight(edges, d, r) by {
            assert forall|i: int| matches_key(up, i, d, r) <==> matches_key(edges, i, d, r) by {}
            if exists|i: int| matches_key(edges, i, d, r) {
                let a = choose|i: int| matches_key(edges, i, d, r);
                let b = choose|i: int| matches_key(up, i, d, r);
                assert(a == b);
            }
        }
    } else {
        assert(up == edges.push(entry));
        assert(matches_key(up, edges.len() as int, destination, relation));
        assert forall|i: int| matches_key(up, i, destination, relation) implies i == edges.len() by {
            if i < edges.len() {
                assert(matches_key(edges, i, destination, relation));
            }
        }
        assert(distinct_keys(up)) by {
            assert forall|i: int, j: int|
                0 <= i < up.len() && 0 <= j < up.len() && i != j implies !(
                #[trigger] up[i].destination == #[trigger] up[j].destination && up[i].relation
                    == up[j].relation) by {
                if i < edges.len() && j < edges.len() {
                    assert(edges[i].destination == up[i].destination && edges[j].destination == up[j].destination);
                } else if i < edges.len() {
                    assert(!matches_key(up, i, destination, relation));
                } else {
                    assert(!matches_key(up, j, destination, relation));
                }
            }
        }
        assert forall|d: NodeId, r: RelationType| !(d == destination && r == relation) implies
            #[trigger] find_weight(up, d, r) == find_weight(edges, d, r) by {
            assert forall|i: int| matches_key(up, i, d, r) <==> matches_key(edges, i, d, r) by {}
            if exists|i: int| matches_key(edges, i, d, r) {
                let a = choose|i: int| matches_key(edges, i, d, r);
                let b = choose|i: int| matches_key(up, i, d, r);
                assert(a == b);
            }
        }
    }
}

/// Recording a valid relation between two present vertices keeps the graph
/// well formed.
pub proof fn lemma_connect_well_formed(v: GraphView, from: NodeId, to: NodeId, relation: RelationType, weight_bits: u64)
    requires
        v.well_formed(),
        v.connect_error(from, to, relation, weight_bits) is None,
    ensures
        v.connect_edges(from, to, relation, weight_bits).well_formed(),
{
    let w = v.connect_edges(from, to, relation, weight_bits);
    assert(v.contains(from) && v.contains(to));
    assert(from != to);
    lemma_upsert(v.outgoing[from], to, relation, weight_bits);
    lemma_upsert(v.incoming[to], from, relation, weight_bits);
    lemma_connect_edge_total(v, from, to, relation, weight_bits);
    assert(v.order.contains(to));
    assert(v.order.subrange(0, v.order.len() as int) =~= v.order);
    lemma_list_total_change(v.order, v.incoming, w.incoming, to, v.order.len());
    if exists|i: int| matches_key(v.incoming[to], i, from, relation) {
        assert(w.incoming[to].len() == v.incoming[to].len());
    } else {
        assert(w.incoming[to].len() == v.incoming[to].len() + 1);
    }
    assert(find_weight(v.outgoing[from], to, relation) == find_weight(v.incoming[to], from, relation));
    assert(w.outgoing.dom() =~= w.nodes.dom());
    assert(w.incoming.dom() =~= w.nodes.dom());
    assert forall|x: NodeId| #[trigger] w.contains(x) <==> w.order.contains(x) by {
        assert(v.contains(x) <==> v.order.contains(x));
    }
    assert forall|x: NodeId| #[trigger] w.contains(x) implies {
        &&& w.nodes[x].id() == x
        &&& w.outgoing.contains_key(x)
        &&& w.incoming.contains_key(x)
        &&& distinct_keys(w.outgoing[x])
        &&& distinct_keys(w.incoming[x])
    } by {
        assert(v.contains(x));
    }
    assert forall|a: NodeId, i: int|
        w.contains(a) && 0 <= i < w.outgoing[a].len() implies #[trigger] w.valid_out_entry(a, i) by {
        if a != from {
            assert(v.valid_out_entry(a, i));
        } else if i < v.outgoing[a].len() && w.outgoing[a][i] == v.outgoing[a][i] {
            assert(v.valid_out_entry(a, i));
        }
    }
    assert forall|b: NodeId, i: int|
        w.contains(b) && 0 <= i < w.incoming[b].len() implies #[trigger] w.valid_in_entry(b, i) by {
        if b != to {
            assert(v.valid_in_entry(b, i));
        } else if i < v.incoming[b].len() && w.incoming[b][i] == v.incoming[b][i] {
            assert(v.valid_in_entry(b, i));
        }
    }
    assert forall|a: NodeId, b: NodeId, r: RelationType| w.contains(a) && w.contains(b) implies
        #[trigger] find_weight(w.outgoing[a], b, r) == #[trigger] find_weight(w.incoming[b], a, r) by {
        assert(find_weight(v.outgoing[a], b, r) == find_weight(v.incoming[b], a, r));
    }
}

/// Summing over a prefix of `order`, for two maps of lists that differ only
/// at `changed`.
proof fn lemma_list_total_change(order: Seq<NodeId>, a: Map<NodeId, Seq<Edge>>, b: Map<NodeId, Seq<Edge>>, changed: NodeId, n: nat)
    requires
        n <= order.len(),
        order.no_duplicates(),
        forall|x: NodeId| x != changed ==> #[trigger] b[x] == a[x],
    ensures
        list_total(order, b, n) == list_total(order, a, n) + if order.subrange(0, n as int).contains(changed) {
            b[changed].len() - a[changed].len()
        } else {
            0int
        },
    decreases n,
{
    if n > 0 {
        lemma_list_total_change(order, a, b, changed, (n - 1) as nat);
        let pre = order.subrange(0, n - 1);
        let cur = order.subrange(0, n as int);
        assert(cur =~= pre.push(order[n - 1]));
        if order[n - 1] == changed {
            assert(cur[n - 1] == changed);
            assert(cur.contains(changed));
            assert(!pre.contains(changed)) by {
                if pre.contains(changed) {
                    let k = choose|k: int| 0 <= k < pre.len() && pre[k] == changed;
                    assert(order[k] == order[n - 1]);
                }
            }
        } else {
            assert(cur.contains(changed) <==> pre.contains(changed)) by {
                if cur.contains(changed) {
                    let k = choose|k: int| 0 <= k < cur.len() && cur[k] == changed;
                    assert(pre[k] == changed);
                }
                if pre.contains(changed) {
                    let k = choose|k: int| 0 <= k < pre.len() && pre[k] == changed;
                    assert(cur[k] == changed);
                }
            }
        }
    }
}

/// Recording a relation adds one relation to the graph when the pair was not
/// yet joined by it, and none otherwise.
pub proof fn lemma_connect_edge_total(v: GraphView, from: NodeId, to: NodeId, relation: RelationType, weight_bits: u64)
    requires
        v.well_formed(),
        v.connect_error(from, to, relation, weight_bits) is None,
    ensures
        v.connect_edges(from, to, relation, weight_bits).edge_total() == v.edge_total()
            + if find_weight(v.outgoing[from], to, relation) is None { 1nat } else { 0nat },
{
    let w = v.connect_edges(from, to, relation, weight_bits);
    assert(from != to);
    lemma_upsert(v.outgoing[from], to, relation, weight_bits);
    assert(v.order.contains(from));
    assert(v.order.subrange(0, v.order.len() as int) =~= v.order);
    lemma_list_total_change(v.order, v.outgoing, w.outgoing, from, v.order.len());
    let up = upsert(v.outgoing[from], to, relation, weight_bits);
    if exists|i: int| matches_key(v.outgoing[from], i, to, relation) {
        assert(up.len() == v.outgoing[from].len());
    } else {
        assert(up.len() == v.outgoing[from].len() + 1);
    }
}

/// Recording a relation whose key is new appends it to the outgoing list of
/// `from` and leaves everything else as it was.
pub proof fn lemma_connect_new_key(v: GraphView, from: NodeId, to: NodeId, relation: RelationType, weight_bits: u64)
    requires
        v.well_formed(),
        v.connect_error(from, to, relation, weight_bits) is None,
        find_weight(v.outgoing[from], to, relation) is None,
    ensures
        ({
            let u = v.connect_edges(from, to, relation, weight_bits);
            &&& u.well_formed()
            &&& u.order == v.order
            &&& u.nodes == v.nodes
            &&& u.outgoing[from] == v.outgoing[from].push(Edge { destination: to, relation, weight_bits })
            &&& forall|x: NodeId| x != from ==> #[trigger] u.outgoing[x] == v.outgoing[x]
            &&& u.incoming[to] == v.incoming[to].push(Edge { destination: from, relation, weight_bits })
            &&& forall|x: NodeId| x != to ==> #[trigger] u.incoming[x] == v.incoming[x]
            &&& u.edge_total() == v.edge_total() + 1
        }),
{
    lemma_connect_well_formed(v, from, to, relation, weight_bits);
    lemma_connect_edge_total(v, from, to, relation, weight_bits);
    assert(!exists|i: int| matches_key(v.outgoing[from], i, to, relation));
    assert(find_weight(v.incoming[to], from, relation) is None);
    assert(!exists|i: int| matches_key(v.incoming[to], i, from, relation));
}

/// Adding a vertex adds no relation.
pub proof fn lemma_insert_node_edge_total(v: GraphView, n: NodeView)
    requires
        v.well_formed(),
        !v.contains(n.id()),
    ensures
        v.insert_node(n).edge_total() == v.edge_total(),
{
    let w = v.insert_node(n);
    lemma_list_total_prefix(v.order, v.outgoing, w.order, w.outgoing, v.order.len());
    assert(w.order[v.order.len() as int] == n.id());
}

/// Summing over the old vertices of an order with more vertices.
proof fn lemma_list_total_prefix(vo: Seq<NodeId>, va: Map<NodeId, Seq<Edge>>, wo: Seq<NodeId>, wa: Map<NodeId, Seq<Edge>>, n: nat)
    requires
        n <= vo.len() <= wo.len(),
        forall|k: int| 0 <= k < vo.len() ==> wo[k] == vo[k],
        forall|k: int| 0 <= k < vo.len() ==> wa[#[trigger] vo[k]] == va[vo[k]],
    ensures
        list_total(wo, wa, n) == list_total(vo, va, n),
    decreases n,
{
    if n > 0 {
        lemma_list_total_prefix(vo, va, wo, wa, (n - 1) as nat);
        assert(wa[vo[n - 1]] == va[vo[n - 1]]);
    }
}

/// Records `destination`/`relation` with `weight_bits` in one list.
fn upsert_in(edges: &mut Vec<Edge>, destination: NodeId, relation: RelationType, weight_bits: u64)
    requires
        distinct_keys(old(edges)@),
    ensures
        final(edges)@ == upsert(old(edges)@, destination, relation, weight_bits),
{
    let ghost before = edges@;
    let mut i: usize = 0;
    while i < edges.len()
        invariant
            edges@ == before,
            before == old(edges)@,
            distinct_keys(before),
            i <= edges.len(),
            forall|k: int| 0 <= k < i ==> !matches_key(before, k, destination, relation),
        decreases edges.len() - i,
    {
        if edges[i].destination == destination && edges[i].relation == relation {
            proof {
                assert(matches_key(before, i as int, destination, relation));
                let k = choose|k: int| matches_key(before, k, destination, relation);
                assert(before[k].destination == before[i as int].destination);
                assert(k == i as int);
                assert(before.update(k, Edge { destination, relation, weight_bits }) == upsert(before, destination, relation, weight_bits));
            }
            edges.set(i, Edge { destination, relation, weight_bits });
            assert(edges@ =~= upsert(before, destination, relation, weight_bits));
            return;
        }
        i = i + 1;
    }
    edges.push(Edge { destination, relation, weight_bits });
}

/// The graph: vertices in insertion order, with an index per vertex kind from
/// the numeric id to the vertex's slot, and per slot the outgoing list and the
/// reverse index of incoming relations.
pub struct Graph {
    clients: HashMap<u64, usize>,
    products: HashMap<u64, usize>,
    categories: HashMap<u64, usize>,
    nodes: Vec<Node>,
    adjacency: Vec<Vec<Edge>>,
    reverse_adjacency: Vec<Vec<Edge>>,
}

impl Graph {
    /// The slot of a vertex, if it is present.
    pub closed spec fn slot(&self, id: NodeId) -> Option<usize> {
        let (m, k) = match id {
            NodeId::Client(k) => (self.clients@, k),
            NodeId::Product(k) => (self.products@, k),
            NodeId::Category(k) => (self.categories@, k),
        };
        if m.contains_key(k) {
            Some(m[k])
        } else {
            None
        }
    }

    /// The slots and the per-slot vectors agree.
    pub closed spec fn rep_ok(&self) -> bool {
        &&& self.adjacency@.len() == self.nodes@.len()
        &&& self.reverse_adjacency@.len() == self.nodes@.len()
        &&& forall|id: NodeId| #[trigger]
            self.slot(id) matches Some(s) ==> s < self.nodes@.len() && self.nodes@[s as int]@.id() == id
        &&& forall|s: int|
            0 <= s < self.nodes@.len() ==> self.slot(#[trigger] self.nodes@[s]@.id()) == Some(s as usize)
    }

    /// The invariant of every graph value this library hands out.
    pub open spec fn wf(&self) -> bool {
        self.rep_ok() && self@.well_formed()
    }
}

impl Default for Graph {
    /// An empty graph.
    fn default() -> (g: Self)
        ensures
            g.wf(),
            g@ == GraphView::empty(),
    {
        Graph::new()
    }
}

impl View for Graph {
    type V = GraphView;

    closed spec fn view(&self) -> GraphView {
        GraphView {
            order: self.nodes@.map_values(|n: Node| n@.id()),
            nodes: Map::new(
                |id: NodeId| self.slot(id) is Some,
                |id: NodeId| self.nodes@[self.slot(id)->0 as int]@,
            ),
            outgoing: Map::new(
                |id: NodeId| self.slot(id) is Some,
                |id: NodeId| self.adjacency@[self.slot(id)->0 as int]@,
            ),
            incoming: Map::new(
                |id: NodeId| self.slot(id) is Some,
                |id: NodeId| self.reverse_adjacency@[self.slot(id)->0 as int]@,
            ),
        }
    }
}

impl Graph {
    /// An empty graph.
    pub fn new() -> (g: Self)
        ensures
            g.wf(),
            g@ == GraphView::empty(),
    {
        let g = Graph {
            clients: HashMap::new(),
            products: HashMap::new(),
            categories: HashMap::new(),
            nodes: Vec::new(),
            adjacency: Vec::new(),
            reverse_adjacency: Vec::new(),
        };
        assert(g@.order =~= Seq::<NodeId>::empty());
        assert(g@.nodes =~= Map::<NodeId, NodeView>::empty());
        assert(g@.outgoing =~= Map::<NodeId, Seq<Edge>>::empty());
        assert(g@.incoming =~= Map::<NodeId, Seq<Edge>>::empty());
        g
    }

    /// The slot of a vertex.
    fn find_slot(&self, id: NodeId) -> (r: Option<usize>)
        ensures
            r == self.slot(id),
    {
        let found = match id {
            NodeId::Client(k) => self.clients.get(&k),
            NodeId::Product(k) => self.products.get(&k),
            NodeId::Category(k) => self.categories.get(&k),
        };
        match found {
            Some(s) => Some(*s),
            None => None,
        }
    }

    /// Whether a vertex with this identifier is present.
    pub fn contains(&self, id: NodeId) -> (r: bool)
        requires
            self.wf(),
        ensures
            r == self@.contains(id),
    {
        self.find_slot(id).is_some()
    }

    /// The number of vertices.
    pub fn node_count(&self) -> (r: usize)
        requires
            self.wf(),
        ensures
            r == self@.order.len(),
    {
        self.nodes.len()
    }

    /// Adds a vertex, refusing an identifier that is already present.
    pub fn add_node(&mut self, node: Node) -> (r: Result<(), ConectaStoreError>)
        requires
            old(self).wf(),
        ensures
            final(self).wf(),
            match r {
                Ok(()) => !old(self)@.contains(node@.id()) && final(self)@ == old(self)@.insert_node(node@),
                Err(e) => old(self)@.contains(node@.id()) && e == ConectaStoreError::NodeAlreadyExists(node@.id())
                    && final(self)@ == old(self)@,
            },
    {
        let id = node.id();
        if self.contains(id) {
            return Err(ConectaStoreError::NodeAlreadyExists(id));
        }
        let ghost old_g = *self;
        let ghost nv = node@;
        let s = self.nodes.len();
        self.nodes.push(node);
        self.adjacency.push(Vec::new());
        self.reverse_adjacency.push(Vec::new());
        match id {
            NodeId::Client(k) => {
                self.clients.insert(k, s);
            },
            NodeId::Product(k) => {
                self.products.insert(k, s);
            },
            NodeId::Category(k) => {
                self.categories.insert(k, s);
            },
        }
        proof {
            assert forall|x: NodeId| #[trigger] self.slot(x) == if x == id { Some(s) } else { old_g.slot(x) } by {}
            assert(self.rep_ok()) by {
                assert forall|t: int| 0 <= t < self.nodes@.len() implies self.slot(
                    #[trigger] self.nodes@[t]@.id(),
                ) == Some(t as usize) by {
                    if t < s {
                        assert(old_g.nodes@[t] == self.nodes@[t]);
                        assert(old_g.slot(old_g.nodes@[t]@.id()) == Some(t as usize));
                    }
                }
            }
            assert(self@.order =~= old_g@.order.push(id));
            assert(self@.nodes =~= old_g@.nodes.insert(id, nv));
            assert(self@.outgoing =~= old_g@.outgoing.insert(id, Seq::empty()));
            assert(self@.incoming =~= old_g@.incoming.insert(id, Seq::empty()));
            assert(self@ =~= old_g@.insert_node(nv));
            lemma_insert_node_well_formed(old_g@, nv);
        }
        Ok(())
    }

    /// Records a relation `from -> to`, or, when the pair is already joined by
    /// this relation, replaces its weight. The reverse index of `to` is kept in
    /// step.
    pub fn connect(&mut self, from: NodeId, to: NodeId, relation: RelationType, weight_bits: u64) -> (r: Result<(), ConectaStoreError>)
        requires
            old(self).wf(),
        ensures
            final(self).wf(),
            match r {
                Ok(()) => old(self)@.connect_error(from, to, relation, weight_bits) is None
                    && final(self)@ == old(self)@.connect_edges(from, to, relation, weight_bits),
                Err(e) => old(self)@.connect_error(from, to, relation, weight_bits) == Some(e)
                    && final(self)@ == old(self)@,
            },
    {
        self.ensure_node(from)?;
        self.ensure_node(to)?;
        Self::validate_weight(weight_bits)?;
        Self::validate_relationship(from, to, relation)?;
        self.upsert_edge(from, to, relation, weight_bits, false);
        self.upsert_edge(to, from, relation, weight_bits, true);
        proof {
            lemma_connect_well_formed(old(self)@, from, to, relation, weight_bits);
        }
        Ok(())
    }

    /// Fails with `NodeNotFound` when the vertex is absent.
    fn ensure_node(&self, id: NodeId) -> (r: Result<(), ConectaStoreError>)
        requires
            self.wf(),
        ensures
            r is Ok <==> self@.contains(id),
            r matches Err(e) ==> e == ConectaStoreError::NodeNotFound(id),
    {
        if self.contains(id) {
            Ok(())
        } else {
            Err(ConectaStoreError::NodeNotFound(id))
        }
    }

    /// Fails with `InvalidWeight` unless the weight is finite and in `0.0..=1.0`.
    fn validate_weight(weight_bits: u64) -> (r: Result<(), ConectaStoreError>)
        ensures
            r is Ok <==> is_unit_interval(weight_bits),
            r matches Err(e) ==> e == ConectaStoreError::InvalidWeight(weight_bits),
    {
        if in_unit_interval(weight_bits) {
            Ok(())
        } else {
            Err(ConectaStoreError::InvalidWeight(weight_bits))
        }
    }

    /// Fails with `InvalidRelationship` when the relation may not join these vertex kinds.
    fn validate_relationship(from: NodeId, to: NodeId, relation: RelationType) -> (r: Result<(), ConectaStoreError>)
        ensures
            r is Ok <==> relationship_allowed(from, to, relation),
            r matches Err(e) ==> e == (ConectaStoreError::InvalidRelationship { from, to }),
    {
        let valid = match relation {
            RelationType::Purchase | RelationType::Interest | RelationType::Rating => {
                matches!((from, to), (NodeId::Client(_), NodeId::Product(_)))
            },
            RelationType::BelongsToCategory => {
                matches!((from, to), (NodeId::Product(_), NodeId::Category(_)))
            },
            RelationType::Similarity => {
                matches!((from, to), (NodeId::Product(_), NodeId::Product(_))) && from != to
            },
        };
        if valid {
            Ok(())
        } else {
            Err(ConectaStoreError::InvalidRelationship { from, to })
        }
    }

    /// Records `destination`/`relation` in the list of `key`: the outgoing list,
    /// or the reverse index when `reverse` is set.
    fn upsert_edge(&mut self, key: NodeId, destination: NodeId, relation: RelationType, weight_bits: u64, reverse: bool)
        requires
            old(self).rep_ok(),
            old(self)@.contains(key),
            distinct_keys(if reverse { old(self)@.incoming[key] } else { old(self)@.outgoing[key] }),
        ensures
            final(self).rep_ok(),
            final(self)@.order == old(self)@.order,
            final(self)@.nodes == old(self)@.nodes,
            reverse ==> final(self)@.outgoing == old(self)@.outgoing,
            reverse ==> final(self)@.incoming == old(self)@.incoming.insert(key, upsert(old(self)@.incoming[key], destination, relation, weight_bits)),
            !reverse ==> final(self)@.incoming == old(self)@.incoming,
            !reverse ==> final(self)@.outgoing == old(self)@.outgoing.insert(key, upsert(old(self)@.outgoing[key], destination, relation, weight_bits)),
    {
        let ghost old_g = *self;
        let s = match self.find_slot(key) {
            Some(s) => s,
            None => {
                return;
            },
        };
        if reverse {
            upsert_in(&mut self.reverse_adjacency[s], destination, relation, weight_bits);
        } else {
            upsert_in(&mut self.adjacency[s], destination, relation, weight_bits);
        }
        proof {
            assert forall|x: NodeId| #[trigger] self.slot(x) == old_g.slot(x) by {}
            assert(self@.order =~= old_g@.order);
            assert(self@.nodes =~= old_g@.nodes);
            if reverse {
                assert(self@.outgoing =~= old_g@.outgoing);
                assert(self@.incoming =~= old_g@.incoming.insert(key, upsert(old_g@.incoming[key], destination, relation, weight_bits)));
            } else {
                assert(self@.incoming =~= old_g@.incoming);
                assert(self@.outgoing =~= old_g@.outgoing.insert(key, upsert(old_g@.outgoing[key], destination, relation, weight_bits)));
            }
        }
    }

    /// The number of relations: the sum of the lengths of the outgoing lists.
    pub fn edge_count(&self) -> (r: usize)
        requires
            self.wf(),
            self@.edge_total() <= usize::MAX,
        ensures
            r == self@.edge_total(),
    {
        let mut total: usize = 0;
        let mut i: usize = 0;
        proof {
            lemma_list_total_monotonic(self@.order, self@.outgoing, 0, self@.order.len());
        }
        while i < self.adjacency.len()
            invariant
                self.wf(),
                self@.edge_total() <= usize::MAX,
                i <= self.adjacency@.len(),
                total == count_edges(self@, i as nat),
            decreases self.adjacency@.len() - i,
        {
            proof {
                assert(self.slot(self.nodes@[i as int]@.id()) == Some(i));
                lemma_list_total_monotonic(self@.order, self@.outgoing, (i + 1) as nat, self@.order.len());
            }
            total = total + self.adjacency[i].len();
            i = i + 1;
        }
        total
    }

    /// The relations that leave the vertex.
    pub fn outgoing(&self, id: NodeId) -> (r: Result<&[Edge], ConectaStoreError>)
        requires
            self.wf(),
        ensures
            match r {
                Ok(edges) => self@.contains(id) && edges@ == self@.outgoing[id],
                Err(e) => !self@.contains(id) && e == ConectaStoreError::NodeNotFound(id),
            },
    {
        match self.find_slot(id) {
            Some(s) => Ok(self.adjacency[s].as_slice()),
            None => Err(ConectaStoreError::NodeNotFound(id)),
        }
    }

    /// The relations that arrive at the vertex, each with the vertex it leaves
    /// as `destination`.
    pub fn incoming(&self, id: NodeId) -> (r: Result<&[Edge], ConectaStoreError>)
        requires
            self.wf(),
        ensures
            match r {
                Ok(edges) => self@.contains(id) && edges@ == self@.incoming[id],
                Err(e) => !self@.contains(id) && e == ConectaStoreError::NodeNotFound(id),
            },
    {
        match self.find_slot(id) {
            Some(s) => Ok(self.reverse_adjacency[s].as_slice()),
            None => Err(ConectaStoreError::NodeNotFound(id)),
        }
    }

    /// The vertex with this identifier.
    pub fn node(&self, id: NodeId) -> (r: Result<&Node, ConectaStoreError>)
        requires
            self.wf(),
        ensures
            match r {
                Ok(n) => self@.contains(id) && n@ == self@.nodes[id],
                Err(e) => !self@.contains(id) && e == ConectaStoreError::NodeNotFound(id),
            },
    {
        match self.find_slot(id) {
            Some(s) => Ok(&self.nodes[s]),
            None => Err(ConectaStoreError::NodeNotFound(id)),
        }
    }
}

} // verus!
