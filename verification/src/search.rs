//! Breadth-first exploration of the graph from an origin vertex.
//!
//! The search follows relations in both directions. Every relation followed
//! from a dequeued vertex is recorded as a step; a vertex seen for the first
//! time is queued (once) when it can still be expanded.

use std::collections::{HashSet, VecDeque};

use vstd::prelude::*;

use crate::graph::{Graph, GraphView};
use crate::models::{Edge, NodeId};

verus! {

/// A vertex waiting in the queue, reached at `depth`. Its score is that of the
/// step `via` that reached it; the origin has no such step.
#[derive(Debug, Clone, Copy)]
pub struct Visit {
    pub node: NodeId,
    pub depth: usize,
    pub via: Option<usize>,
}

/// A relation followed from the dequeued vertex `from`. `via` names the step
/// whose score the new score builds on (none for relations of the origin) and
/// `depth` is the number of relations from the origin to `edge.destination`.
#[derive(Debug, Clone, Copy)]
pub struct Step {
    pub from: NodeId,
    pub via: Option<usize>,
    pub edge: Edge,
    pub depth: usize,
}

/// The state of the search: the queue of every vertex ever queued with the
/// position `head` of the next one to expand, the vertices seen, and the steps
/// recorded so far.
pub struct Search {
    pub queue: Seq<Visit>,
    pub head: int,
    pub visited: Set<NodeId>,
    pub steps: Seq<Step>,
}

/// The state before the first expansion: only the origin is queued and seen.
pub open spec fn start(origin: NodeId) -> Search {
    Search {
        queue: seq![Visit { node: origin, depth: 0, via: None }],
        head: 0,
        visited: Set::empty().insert(origin),
        steps: Seq::empty(),
    }
}

/// Follows `edge` from `visit`: records the step, and queues the destination
/// when it is new and may still be expanded (its depth is below `max_depth`).
pub open spec fn follow(max_depth: usize, s: Search, visit: Visit, edge: Edge) -> Search {
    let depth = (visit.depth + 1) as usize;
    let steps = s.steps.push(Step { from: visit.node, via: visit.via, edge, depth });
    if depth < max_depth && !s.visited.contains(edge.destination) {
        Search {
            queue: s.queue.push(Visit { node: edge.destination, depth, via: Some(s.steps.len() as usize) }),
            head: s.head,
            visited: s.visited.insert(edge.destination),
            steps,
        }
    } else {
        Search { queue: s.queue, head: s.head, visited: s.visited, steps }
    }
}

/// Follows the relations of `edges` in order.
pub open spec fn follow_all(max_depth: usize, s: Search, visit: Visit, edges: Seq<Edge>) -> Search
    decreases edges.len(),
{
    if edges.len() == 0 {
        s
    } else {
        follow(max_depth, follow_all(max_depth, s, visit, edges.drop_last()), visit, edges.last())
    }
}

/// Dequeues the next vertex and, when its depth is below `max_depth`, follows
/// its outgoing relations and then its incoming ones.
pub open spec fn expand(g: GraphView, max_depth: usize, s: Search) -> Search {
    let visit = s.queue[s.head];
    let s1 = Search { queue: s.queue, head: s.head + 1, visited: s.visited, steps: s.steps };
    if visit.depth >= max_depth {
        s1
    } else {
        follow_all(max_depth, s1, visit, g.outgoing[visit.node] + g.incoming[visit.node])
    }
}

/// Every queued vertex has been expanded.
pub open spec fn exhausted(s: Search) -> bool {
    s.head >= s.queue.len()
}

/// The state after `n` expansions, or at exhaustion if that comes first.
pub open spec fn run(g: GraphView, origin: NodeId, max_depth: usize, n: nat) -> Search
    decreases n,
{
    if n == 0 {
        start(origin)
    } else {
        let prev = run(g, origin, max_depth, (n - 1) as nat);
        if exhausted(prev) {
            prev
        } else {
            expand(g, max_depth, prev)
        }
    }
}

/// The steps of the breadth-first search from `origin`: those recorded when
/// the queue is exhausted (that state is reached, see
/// `lemma_search_terminates`, and is unique, see `lemma_exhausted_unique`).
pub open spec fn search_steps(g: GraphView, origin: NodeId, max_depth: usize) -> Seq<Step> {
    run(g, origin, max_depth, choose|n: nat| exhausted(run(g, origin, max_depth, n))).steps
}

/// The step named by `via`, if any, comes before position `bound`.
pub open spec fn via_before(via: Option<usize>, bound: int) -> bool {
    match via {
        Some(j) => j < bound,
        None => true,
    }
}

/// The invariant of every state of the search.
pub open spec fn search_inv(g: GraphView, s: Search) -> bool {
    &&& 0 <= s.head <= s.queue.len()
    &&& s.visited.finite()
    &&& s.visited.len() == s.queue.len()
    &&& forall|x: NodeId| #[trigger] s.visited.contains(x) ==> g.contains(x)
    &&& forall|i: int| 0 <= i < s.queue.len() ==> s.visited.contains(#[trigger] s.queue[i].node)
    &&& forall|i: int| 0 <= i < s.queue.len() ==> via_before((#[trigger] s.queue[i]).via, s.steps.len() as int)
    &&& forall|i: int| 0 <= i < s.steps.len() ==> via_before((#[trigger] s.steps[i]).via, i)
    &&& forall|i: int| 0 <= i < s.steps.len() ==> g.contains((#[trigger] s.steps[i]).edge.destination)
}

/// Following one relation keeps the invariant.
pub proof fn lemma_follow_inv(g: GraphView, max_depth: usize, s: Search, visit: Visit, edge: Edge)
    requires
        search_inv(g, s),
        g.contains(edge.destination),
        via_before(visit.via, s.steps.len() as int),
        visit.depth < max_depth,
    ensures
        search_inv(g, follow(max_depth, s, visit, edge)),
        follow(max_depth, s, visit, edge).head == s.head,
        follow(max_depth, s, visit, edge).steps.len() == s.steps.len() + 1,
        follow(max_depth, s, visit, edge).queue.len() >= s.queue.len(),
        follow(max_depth, s, visit, edge).queue.subrange(0, s.queue.len() as int) == s.queue,
{
    let t = follow(max_depth, s, visit, edge);
    assert(t.queue.subrange(0, s.queue.len() as int) =~= s.queue);
    assert forall|i: int| 0 <= i < t.queue.len() implies t.visited.contains(#[trigger] t.queue[i].node) by {
        if i < s.queue.len() {
            assert(s.visited.contains(s.queue[i].node));
        }
    }
    assert forall|i: int| 0 <= i < t.queue.len() implies via_before((#[trigger] t.queue[i]).via, t.steps.len() as int) by {
        if i < s.queue.len() {
            assert(s.queue[i] == t.queue[i]);
        }
    }
    assert forall|i: int| 0 <= i < t.steps.len() implies via_before((#[trigger] t.steps[i]).via, i)
        && g.contains(t.steps[i].edge.destination) by {
        if i < s.steps.len() {
            assert(s.steps[i] == t.steps[i]);
        }
    }
}

/// Following a list of relations keeps the invariant.
pub proof fn lemma_follow_all_inv(g: GraphView, max_depth: usize, s: Search, visit: Visit, edges: Seq<Edge>)
    requires
        search_inv(g, s),
        forall|i: int| 0 <= i < edges.len() ==> g.contains(#[trigger] edges[i].destination),
        via_before(visit.via, s.steps.len() as int),
        visit.depth < max_depth,
    ensures
        search_inv(g, follow_all(max_depth, s, visit, edges)),
        follow_all(max_depth, s, visit, edges).head == s.head,
        follow_all(max_depth, s, visit, edges).steps.len() == s.steps.len() + edges.len(),
        follow_all(max_depth, s, visit, edges).queue.len() >= s.queue.len(),
        follow_all(max_depth, s, visit, edges).queue.subrange(0, s.queue.len() as int) == s.queue,
    decreases edges.len(),
{
    if edges.len() > 0 {
        let prefix = edges.drop_last();
        assert forall|i: int| 0 <= i < prefix.len() implies g.contains(#[trigger] prefix[i].destination) by {
            assert(prefix[i] == edges[i]);
        }
        lemma_follow_all_inv(g, max_depth, s, visit, prefix);
        let p = follow_all(max_depth, s, visit, prefix);
        assert(g.contains(edges[edges.len() - 1].destination));
        lemma_follow_inv(g, max_depth, p, visit, edges.last());
        let t = follow(max_depth, p, visit, edges.last());
        assert(t.queue.subrange(0, s.queue.len() as int) =~= p.queue.subrange(0, s.queue.len() as int)) by {
            assert forall|i: int| 0 <= i < s.queue.len() implies t.queue[i] == p.queue[i] by {
                assert(t.queue.subrange(0, p.queue.len() as int)[i] == p.queue[i]);
            }
        }
    }
}

/// Following `a` then `b` is following `a + b`.
pub proof fn lemma_follow_all_concat(max_depth: usize, s: Search, visit: Visit, a: Seq<Edge>, b: Seq<Edge>)
    ensures
        follow_all(max_depth, s, visit, a + b) == follow_all(max_depth, follow_all(max_depth, s, visit, a), visit, b),
    decreases b.len(),
{
    if b.len() == 0 {
        assert(a + b =~= a);
    } else {
        assert((a + b).drop_last() =~= a + b.drop_last());
        assert((a + b).last() == b.last());
        lemma_follow_all_concat(max_depth, s, visit, a, b.drop_last());
    }
}

/// Expanding the next vertex keeps the invariant and moves `head` forward.
pub proof fn lemma_expand_inv(g: GraphView, max_depth: usize, s: Search)
    requires
        g.well_formed(),
        search_inv(g, s),
        !exhausted(s),
    ensures
        search_inv(g, expand(g, max_depth, s)),
        expand(g, max_depth, s).head == s.head + 1,
        expand(g, max_depth, s).queue.len() >= s.queue.len(),
{
    let visit = s.queue[s.head];
    let s1 = Search { queue: s.queue, head: s.head + 1, visited: s.visited, steps: s.steps };
    assert(s.visited.contains(visit.node));
    if visit.depth < max_depth {
        let edges = g.outgoing[visit.node] + g.incoming[visit.node];
        assert forall|i: int| 0 <= i < edges.len() implies g.contains(#[trigger] edges[i].destination) by {
            if i < g.outgoing[visit.node].len() {
                assert(g.valid_out_entry(visit.node, i));
            } else {
                assert(g.valid_in_entry(visit.node, i - g.outgoing[visit.node].len()));
            }
        }
        lemma_follow_all_inv(g, max_depth, s1, visit, edges);
    }
}

/// Every state of the run satisfies the invariant.
pub proof fn lemma_run_inv(g: GraphView, origin: NodeId, max_depth: usize, n: nat)
    requires
        g.well_formed(),
        g.contains(origin),
    ensures
        search_inv(g, run(g, origin, max_depth, n)),
    decreases n,
{
    if n == 0 {
        let s = start(origin);
        assert(s.visited.len() == 1) by {
            assert(Set::<NodeId>::empty().insert(origin).len() == 1);
        }
    } else {
        lemma_run_inv(g, origin, max_depth, (n - 1) as nat);
        let prev = run(g, origin, max_depth, (n - 1) as nat);
        if !exhausted(prev) {
            lemma_expand_inv(g, max_depth, prev);
        }
    }
}

/// Once exhausted, the run no longer changes.
pub proof fn lemma_exhausted_stable(g: GraphView, origin: NodeId, max_depth: usize, n: nat, m: nat)
    requires
        n <= m,
        exhausted(run(g, origin, max_depth, n)),
    ensures
        run(g, origin, max_depth, m) == run(g, origin, max_depth, n),
    decreases m - n,
{
    if n < m {
        lemma_exhausted_stable(g, origin, max_depth, n, (m - 1) as nat);
    }
}

/// All exhausted states of the run are the same state.
pub proof fn lemma_exhausted_unique(g: GraphView, origin: NodeId, max_depth: usize, n: nat, m: nat)
    requires
        exhausted(run(g, origin, max_depth, n)),
        exhausted(run(g, origin, max_depth, m)),
    ensures
        run(g, origin, max_depth, m) == run(g, origin, max_depth, n),
{
    if n <= m {
        lemma_exhausted_stable(g, origin, max_depth, n, m);
    } else {
        lemma_exhausted_stable(g, origin, max_depth, m, n);
    }
}

/// The queue never holds more vertices than the graph.
proof fn lemma_queue_bounded(g: GraphView, origin: NodeId, max_depth: usize, n: nat)
    requires
        g.well_formed(),
        g.contains(origin),
    ensures
        run(g, origin, max_depth, n).queue.len() <= g.order.len(),
        search_inv(g, run(g, origin, max_depth, n)),
{
    lemma_run_inv(g, origin, max_depth, n);
    let s = run(g, origin, max_depth, n);
    assert(s.visited.subset_of(g.order.to_set()));
    vstd::set_lib::lemma_len_subset(s.visited, g.order.to_set());
    g.order.lemma_cardinality_of_set();
}

/// The search reaches exhaustion: every expansion moves `head` forward, and
/// the queue never holds more vertices than the graph.
pub proof fn lemma_search_terminates(g: GraphView, origin: NodeId, max_depth: usize, n: nat)
    requires
        g.well_formed(),
        g.contains(origin),
    ensures
        exists|m: nat| exhausted(#[trigger] run(g, origin, max_depth, m)),
    decreases 2 * g.order.len() - run(g, origin, max_depth, n).queue.len() - run(g, origin, max_depth, n).head,
{
    lemma_queue_bounded(g, origin, max_depth, n);
    let s = run(g, origin, max_depth, n);
    if exhausted(s) {
        assert(exhausted(run(g, origin, max_depth, n)));
    } else {
        lemma_expand_inv(g, max_depth, s);
        lemma_queue_bounded(g, origin, max_depth, n + 1);
        assert(run(g, origin, max_depth, n + 1) == expand(g, max_depth, s));
        lemma_search_terminates(g, origin, max_depth, n + 1);
    }
}

/// The visit is reached by the step that `via` names, at the same depth, or
/// is the origin at depth zero.
pub open spec fn reached_by(origin: NodeId, steps: Seq<Step>, visit: Visit) -> bool {
    match visit.via {
        Some(j) => j < steps.len() && steps[j as int].edge.destination == visit.node && steps[j as int].depth == visit.depth,
        None => visit.node == origin && visit.depth == 0,
    }
}

/// Step `i` follows a relation of the vertex it leaves, and builds on the
/// earlier step that reached that vertex, one relation shallower (or leaves
/// the origin at depth one).
pub open spec fn step_chained(g: GraphView, origin: NodeId, steps: Seq<Step>, i: int) -> bool {
    &&& (g.outgoing[steps[i].from].contains(steps[i].edge) || g.incoming[steps[i].from].contains(steps[i].edge))
    &&& match steps[i].via {
        Some(j) => j < i && steps[j as int].edge.destination == steps[i].from && steps[i].depth == steps[j as int].depth + 1,
        None => steps[i].from == origin && steps[i].depth == 1,
    }
}

/// Every queued vertex is reached by its `via` step, and every step is chained.
pub open spec fn chain_inv(g: GraphView, origin: NodeId, s: Search) -> bool {
    &&& forall|i: int| 0 <= i < s.queue.len() ==> reached_by(origin, s.steps, #[trigger] s.queue[i])
    &&& forall|i: int| 0 <= i < s.steps.len() ==> #[trigger] step_chained(g, origin, s.steps, i)
}

/// Following a relation of the visited vertex keeps `chain_inv` and only
/// appends to the steps.
proof fn lemma_follow_chain(g: GraphView, origin: NodeId, max_depth: usize, s: Search, visit: Visit, edge: Edge)
    requires
        chain_inv(g, origin, s),
        reached_by(origin, s.steps, visit),
        visit.depth < max_depth,
        s.steps.len() < usize::MAX,
        g.outgoing[visit.node].contains(edge) || g.incoming[visit.node].contains(edge),
    ensures
        chain_inv(g, origin, follow(max_depth, s, visit, edge)),
        follow(max_depth, s, visit, edge).steps == s.steps.push(Step { from: visit.node, via: visit.via, edge, depth: (visit.depth + 1) as usize }),
{
    let t = follow(max_depth, s, visit, edge);
    assert forall|i: int| 0 <= i < t.queue.len() implies reached_by(origin, t.steps, #[trigger] t.queue[i]) by {
        if i < s.queue.len() {
            assert(t.queue[i] == s.queue[i]);
            assert(reached_by(origin, s.steps, s.queue[i]));
        }
    }
    assert forall|i: int| 0 <= i < t.steps.len() implies #[trigger] step_chained(g, origin, t.steps, i) by {
        if i < s.steps.len() {
            assert(step_chained(g, origin, s.steps, i));
            assert(t.steps[i] == s.steps[i]);
        }
    }
}

/// Following a list of relations of the visited vertex keeps `chain_inv` and
/// only appends to the steps.
proof fn lemma_follow_all_chain(g: GraphView, origin: NodeId, max_depth: usize, s: Search, visit: Visit, edges: Seq<Edge>)
    requires
        chain_inv(g, origin, s),
        reached_by(origin, s.steps, visit),
        visit.depth < max_depth,
        s.steps.len() + edges.len() <= usize::MAX,
        forall|i: int| 0 <= i < edges.len() ==> g.outgoing[visit.node].contains(#[trigger] edges[i])
            || g.incoming[visit.node].contains(edges[i]),
    ensures
        chain_inv(g, origin, follow_all(max_depth, s, visit, edges)),
        follow_all(max_depth, s, visit, edges).steps.len() == s.steps.len() + edges.len(),
        follow_all(max_depth, s, visit, edges).steps.subrange(0, s.steps.len() as int) == s.steps,
    decreases edges.len(),
{
    if edges.len() > 0 {
        let prefix = edges.drop_last();
        assert forall|i: int| 0 <= i < prefix.len() implies g.outgoing[visit.node].contains(#[trigger] prefix[i])
            || g.incoming[visit.node].contains(prefix[i]) by {
            assert(prefix[i] == edges[i]);
        }
        lemma_follow_all_chain(g, origin, max_depth, s, visit, prefix);
        let p = follow_all(max_depth, s, visit, prefix);
        assert(p.steps.subrange(0, s.steps.len() as int) == s.steps);
        assert(reached_by(origin, p.steps, visit)) by {
            if let Some(j) = visit.via {
                assert(p.steps[j as int] == p.steps.subrange(0, s.steps.len() as int)[j as int]);
            }
        }
        assert(g.outgoing[visit.node].contains(edges[edges.len() - 1]) || g.incoming[visit.node].contains(edges[edges.len() - 1]));
        lemma_follow_chain(g, origin, max_depth, p, visit, edges.last());
        let t = follow(max_depth, p, visit, edges.last());
        assert(t.steps.subrange(0, s.steps.len() as int) =~= s.steps) by {
            assert forall|k: int| 0 <= k < s.steps.len() implies t.steps[k] == s.steps[k] by {
                assert(t.steps[k] == p.steps[k]);
                assert(p.steps.subrange(0, s.steps.len() as int)[k] == p.steps[k]);
            }
        }
    }
}

/// Every state of the run whose steps fit in a `usize` satisfies `chain_inv`.
pub proof fn lemma_run_chain(g: GraphView, origin: NodeId, max_depth: usize, n: nat)
    requires
        g.well_formed(),
        g.contains(origin),
        run(g, origin, max_depth, n).steps.len() <= usize::MAX,
    ensures
        chain_inv(g, origin, run(g, origin, max_depth, n)),
    decreases n,
{
    if n > 0 {
        lemma_run_inv(g, origin, max_depth, (n - 1) as nat);
        let s = run(g, origin, max_depth, (n - 1) as nat);
        if !exhausted(s) {
            lemma_expand_inv(g, max_depth, s);
            let v = s.queue[s.head];
            if v.depth < max_depth {
                let edges = g.outgoing[v.node] + g.incoming[v.node];
                assert(s.visited.contains(v.node));
                assert forall|i: int| 0 <= i < edges.len() implies g.contains(#[trigger] edges[i].destination) by {
                    if i < g.outgoing[v.node].len() {
                        assert(g.valid_out_entry(v.node, i));
                    } else {
                        assert(g.valid_in_entry(v.node, i - g.outgoing[v.node].len()));
                    }
                }
                lemma_follow_all_inv(g, max_depth, Search { queue: s.queue, head: s.head + 1, visited: s.visited, steps: s.steps }, v, edges);
            }
        }
        lemma_run_chain(g, origin, max_depth, (n - 1) as nat);
        if !exhausted(s) {
            let visit = s.queue[s.head];
            let s1 = Search { queue: s.queue, head: s.head + 1, visited: s.visited, steps: s.steps };
            assert(reached_by(origin, s.steps, visit));
            if visit.depth < max_depth {
                let edges = g.outgoing[visit.node] + g.incoming[visit.node];
                assert forall|i: int| 0 <= i < edges.len() implies g.outgoing[visit.node].contains(#[trigger] edges[i])
                    || g.incoming[visit.node].contains(edges[i]) by {
                    if i < g.outgoing[visit.node].len() {
                        assert(g.outgoing[visit.node][i] == edges[i]);
                    } else {
                        assert(g.incoming[visit.node][i - g.outgoing[visit.node].len()] == edges[i]);
                    }
                }
                lemma_follow_all_chain(g, origin, max_depth, s1, visit, edges);
            }
        }
    }
}

/// Vertex `b` is joined to `a` by a relation, in either direction.
pub open spec fn adjacent(g: GraphView, a: NodeId, b: NodeId) -> bool {
    ||| exists|i: int| 0 <= i < g.outgoing[a].len() && (#[trigger] g.outgoing[a][i]).destination == b
    ||| exists|i: int| 0 <= i < g.incoming[a].len() && (#[trigger] g.incoming[a][i]).destination == b
}

/// Consecutive vertices of the sequence are adjacent.
pub open spec fn is_path(g: GraphView, path: Seq<NodeId>) -> bool {
    &&& path.len() > 0
    &&& forall|i: int| 0 <= i < path.len() - 1 ==> adjacent(g, #[trigger] path[i], path[i + 1])
}

/// `x` is at most `k` relations away from `origin`, relations being followed
/// in either direction.
pub open spec fn within(g: GraphView, origin: NodeId, x: NodeId, k: nat) -> bool {
    exists|path: Seq<NodeId>| #[trigger] is_path(g, path) && path[0] == origin && path.last() == x && path.len() <= k + 1
}

/// A vertex adjacent to one within `k` relations is within `k + 1`.
pub proof fn lemma_within_step(g: GraphView, origin: NodeId, x: NodeId, y: NodeId, k: nat)
    requires
        within(g, origin, x, k),
        adjacent(g, x, y),
    ensures
        within(g, origin, y, k + 1),
{
    let path = choose|path: Seq<NodeId>| #[trigger] is_path(g, path) && path[0] == origin && path.last() == x && path.len() <= k + 1;
    let longer = path.push(y);
    assert forall|i: int| 0 <= i < longer.len() - 1 implies adjacent(g, #[trigger] longer[i], longer[i + 1]) by {
        if i < path.len() - 1 {
            assert(longer[i] == path[i] && longer[i + 1] == path[i + 1]);
        } else {
            assert(longer[i] == x);
        }
    }
    assert(is_path(g, longer));
}

/// Every queued vertex and every step's destination lie within their depth of
/// the origin, and no step is deeper than `max_depth`.
pub open spec fn reach_inv(g: GraphView, origin: NodeId, max_depth: usize, s: Search) -> bool {
    &&& forall|i: int| 0 <= i < s.queue.len() ==> within(g, origin, (#[trigger] s.queue[i]).node, s.queue[i].depth as nat)
    &&& forall|i: int| 0 <= i < s.steps.len() ==> within(g, origin, (#[trigger] s.steps[i]).edge.destination, s.steps[i].depth as nat)
        && s.steps[i].depth <= max_depth
}

proof fn lemma_follow_reach(g: GraphView, origin: NodeId, max_depth: usize, s: Search, visit: Visit, edge: Edge)
    requires
        reach_inv(g, origin, max_depth, s),
        within(g, origin, visit.node, visit.depth as nat),
        visit.depth < max_depth,
        adjacent(g, visit.node, edge.destination),
    ensures
        reach_inv(g, origin, max_depth, follow(max_depth, s, visit, edge)),
{
    let t = follow(max_depth, s, visit, edge);
    let d = (visit.depth + 1) as nat;
    lemma_within_step(g, origin, visit.node, edge.destination, visit.depth as nat);
    assert forall|i: int| 0 <= i < t.queue.len() implies within(g, origin, (#[trigger] t.queue[i]).node, t.queue[i].depth as nat) by {
        if i < s.queue.len() {
            assert(t.queue[i] == s.queue[i]);
        }
    }
    assert forall|i: int| 0 <= i < t.steps.len() implies within(g, origin, (#[trigger] t.steps[i]).edge.destination, t.steps[i].depth as nat)
        && t.steps[i].depth <= max_depth by {
        if i < s.steps.len() {
            assert(t.steps[i] == s.steps[i]);
        }
    }
}

proof fn lemma_follow_all_reach(g: GraphView, origin: NodeId, max_depth: usize, s: Search, visit: Visit, edges: Seq<Edge>)
    requires
        reach_inv(g, origin, max_depth, s),
        within(g, origin, visit.node, visit.depth as nat),
        visit.depth < max_depth,
        forall|i: int| 0 <= i < edges.len() ==> adjacent(g, visit.node, #[trigger] edges[i].destination),
    ensures
        reach_inv(g, origin, max_depth, follow_all(max_depth, s, visit, edges)),
    decreases edges.len(),
{
    if edges.len() > 0 {
        let prefix = edges.drop_last();
        assert forall|i: int| 0 <= i < prefix.len() implies adjacent(g, visit.node, #[trigger] prefix[i].destination) by {
            assert(prefix[i] == edges[i]);
        }
        lemma_follow_all_reach(g, origin, max_depth, s, visit, prefix);
        assert(adjacent(g, visit.node, edges[edges.len() - 1].destination));
        lemma_follow_reach(g, origin, max_depth, follow_all(max_depth, s, visit, prefix), visit, edges.last());
    }
}

/// Every state of the run satisfies `reach_inv`.
pub proof fn lemma_run_reach(g: GraphView, origin: NodeId, max_depth: usize, n: nat)
    requires
        g.well_formed(),
        g.contains(origin),
    ensures
        reach_inv(g, origin, max_depth, run(g, origin, max_depth, n)),
    decreases n,
{
    if n == 0 {
        assert(is_path(g, seq![origin]));
        assert(within(g, origin, origin, 0));
    } else {
        lemma_run_reach(g, origin, max_depth, (n - 1) as nat);
        lemma_run_inv(g, origin, max_depth, (n - 1) as nat);
        let prev = run(g, origin, max_depth, (n - 1) as nat);
        if !exhausted(prev) {
            let visit = prev.queue[prev.head];
            let s1 = Search { queue: prev.queue, head: prev.head + 1, visited: prev.visited, steps: prev.steps };
            if visit.depth < max_depth {
                let out = g.outgoing[visit.node];
                let inc = g.incoming[visit.node];
                let edges = out + inc;
                assert forall|i: int| 0 <= i < edges.len() implies adjacent(g, visit.node, #[trigger] edges[i].destination) by {
                    if i < out.len() {
                        assert(out[i] == edges[i]);
                    } else {
                        assert(inc[i - out.len()] == edges[i]);
                    }
                }
                assert(within(g, origin, prev.queue[prev.head].node, prev.queue[prev.head].depth as nat));
                lemma_follow_all_reach(g, origin, max_depth, s1, visit, edges);
            }
        }
    }
}

/// The relations followed when `x` is expanded: outgoing, then incoming.
pub open spec fn edges_of(g: GraphView, x: NodeId) -> Seq<Edge> {
    g.outgoing[x] + g.incoming[x]
}

/// `x` is queued at a depth of at most `k`, or `k` is too deep to be expanded.
pub open spec fn reached(s: Search, max_depth: usize, x: NodeId, k: nat) -> bool {
    k >= max_depth || exists|j: int| 0 <= j < s.queue.len() && (#[trigger] s.queue[j]).node == x && s.queue[j].depth <= k
}

/// Some recorded step leads to `x`.
pub open spec fn covered(s: Search, x: NodeId) -> bool {
    exists|t: int| 0 <= t < s.steps.len() && (#[trigger] s.steps[t]).edge.destination == x
}

/// Queue depths never decrease.
pub open spec fn depths_sorted(queue: Seq<Visit>) -> bool {
    forall|i: int, j: int| 0 <= i <= j < queue.len() ==> (#[trigger] queue[i]).depth <= (#[trigger] queue[j]).depth
}

/// Every vertex seen is queued.
pub open spec fn seen_queued(s: Search) -> bool {
    forall|x: NodeId| #[trigger] s.visited.contains(x) ==> exists|j: int| 0 <= j < s.queue.len() && (#[trigger] s.queue[j]).node == x
}

/// The search proceeds in layers, and every expanded vertex has all its
/// neighbours covered by a step and queued at most one level deeper (when
/// that level may still be expanded).
pub open spec fn complete_inv(g: GraphView, max_depth: usize, s: Search) -> bool {
    &&& depths_sorted(s.queue)
    &&& s.head < s.queue.len() ==> forall|i: int| 0 <= i < s.queue.len() ==> (#[trigger] s.queue[i]).depth <= s.queue[s.head].depth + 1
    &&& seen_queued(s)
    &&& forall|i: int, t: int|
        0 <= i < s.head && s.queue[i].depth < max_depth && 0 <= t < edges_of(g, s.queue[i].node).len() ==> {
            &&& reached(s, max_depth, (#[trigger] edges_of(g, (#[trigger] s.queue[i]).node)[t]).destination, (s.queue[i].depth + 1) as nat)
            &&& covered(s, edges_of(g, s.queue[i].node)[t].destination)
        }
}

/// What is reached and covered stays so as the queue and the steps grow.
proof fn lemma_growth_keeps(s: Search, t: Search, max_depth: usize, x: NodeId, k: nat)
    requires
        s.queue.len() <= t.queue.len(),
        t.queue.subrange(0, s.queue.len() as int) == s.queue,
        s.steps.len() <= t.steps.len(),
        t.steps.subrange(0, s.steps.len() as int) == s.steps,
    ensures
        reached(s, max_depth, x, k) ==> reached(t, max_depth, x, k),
        covered(s, x) ==> covered(t, x),
{
    if k < max_depth && reached(s, max_depth, x, k) {
        let j = choose|j: int| 0 <= j < s.queue.len() && (#[trigger] s.queue[j]).node == x && s.queue[j].depth <= k;
        assert(t.queue.subrange(0, s.queue.len() as int)[j] == t.queue[j]);
        assert(t.queue[j].node == x);
    }
    if covered(s, x) {
        let j = choose|j: int| 0 <= j < s.steps.len() && (#[trigger] s.steps[j]).edge.destination == x;
        assert(t.steps.subrange(0, s.steps.len() as int)[j] == t.steps[j]);
        assert(t.steps[j].edge.destination == x);
    }
}

/// Following the relations of the vertex being expanded (at depth `d`) keeps
/// the layers, and reaches and covers every destination.
proof fn lemma_follow_all_complete(max_depth: usize, s: Search, visit: Visit, edges: Seq<Edge>)
    requires
        depths_sorted(s.queue),
        forall|i: int| 0 <= i < s.queue.len() ==> (#[trigger] s.queue[i]).depth <= visit.depth + 1,
        seen_queued(s),
        visit.depth < max_depth,
    ensures
        ({
            let t = follow_all(max_depth, s, visit, edges);
            &&& depths_sorted(t.queue)
            &&& forall|i: int| 0 <= i < t.queue.len() ==> (#[trigger] t.queue[i]).depth <= visit.depth + 1
            &&& seen_queued(t)
            &&& t.head == s.head
            &&& s.queue.len() <= t.queue.len()
            &&& t.queue.subrange(0, s.queue.len() as int) == s.queue
            &&& s.steps.len() <= t.steps.len()
            &&& t.steps.subrange(0, s.steps.len() as int) == s.steps
            &&& forall|k: int| 0 <= k < edges.len() ==> reached(t, max_depth, (#[trigger] edges[k]).destination, (visit.depth + 1) as nat)
                && covered(t, edges[k].destination)
        }),
    decreases edges.len(),
{
    if edges.len() == 0 {
        assert(s.queue.subrange(0, s.queue.len() as int) =~= s.queue);
        assert(s.steps.subrange(0, s.steps.len() as int) =~= s.steps);
    } else {
        let prefix = edges.drop_last();
        lemma_follow_all_complete(max_depth, s, visit, prefix);
        let p = follow_all(max_depth, s, visit, prefix);
        let e = edges.last();
        let t = follow(max_depth, p, visit, e);
        let d = (visit.depth + 1) as nat;
        assert(t == follow_all(max_depth, s, visit, edges));
        assert(t.queue.subrange(0, p.queue.len() as int) =~= p.queue);
        assert(t.steps =~= p.steps.push(Step { from: visit.node, via: visit.via, edge: e, depth: d as usize }));
        assert(t.steps.subrange(0, p.steps.len() as int) =~= p.steps);
        assert(t.queue.subrange(0, s.queue.len() as int) =~= s.queue) by {
            assert forall|i: int| 0 <= i < s.queue.len() implies t.queue[i] == s.queue[i] by {
                assert(p.queue.subrange(0, s.queue.len() as int)[i] == p.queue[i]);
            }
        }
        assert(t.steps.subrange(0, s.steps.len() as int) =~= s.steps) by {
            assert forall|i: int| 0 <= i < s.steps.len() implies t.steps[i] == s.steps[i] by {
                assert(p.steps.subrange(0, s.steps.len() as int)[i] == p.steps[i]);
            }
        }
        assert(depths_sorted(t.queue)) by {
            assert forall|i: int, j: int| 0 <= i <= j < t.queue.len() implies (#[trigger] t.queue[i]).depth <= (#[trigger] t.queue[j]).depth by {
                if j >= p.queue.len() {
                    if i < p.queue.len() {
                        assert(p.queue[i].depth <= visit.depth + 1);
                    }
                } else {
                    assert(p.queue[i] == t.queue[i] && p.queue[j] == t.queue[j]);
                }
            }
        }
        assert forall|i: int| 0 <= i < t.queue.len() implies (#[trigger] t.queue[i]).depth <= visit.depth + 1 by {
            if i < p.queue.len() {
                assert(p.queue[i] == t.queue[i]);
            }
        }
        assert(seen_queued(t)) by {
            assert forall|x: NodeId| #[trigger] t.visited.contains(x) implies exists|j: int| 0 <= j < t.queue.len() && (#[trigger] t.queue[j]).node == x by {
                if p.visited.contains(x) {
                    let j = choose|j: int| 0 <= j < p.queue.len() && (#[trigger] p.queue[j]).node == x;
                    assert(t.queue[j] == p.queue[j]);
                } else {
                    assert(t.queue[t.queue.len() - 1].node == x);
                }
            }
        }
        assert(covered(t, e.destination)) by {
            assert(t.steps[t.steps.len() - 1].edge.destination == e.destination);
        }
        assert(reached(t, max_depth, e.destination, d)) by {
            if d < max_depth {
                if p.visited.contains(e.destination) {
                    let j = choose|j: int| 0 <= j < p.queue.len() && (#[trigger] p.queue[j]).node == e.destination;
                    assert(t.queue[j] == p.queue[j]);
                } else {
                    assert(t.queue[t.queue.len() - 1].node == e.destination);
                }
            }
        }
        assert forall|k: int| 0 <= k < edges.len() implies reached(t, max_depth, (#[trigger] edges[k]).destination, d)
            && covered(t, edges[k].destination) by {
            if k < edges.len() - 1 {
                assert(prefix[k] == edges[k]);
                lemma_growth_keeps(p, t, max_depth, edges[k].destination, d);
            }
        }
    }
}

/// Expanding the next vertex keeps `complete_inv`.
proof fn lemma_expand_complete(g: GraphView, max_depth: usize, s: Search)
    requires
        search_inv(g, s),
        complete_inv(g, max_depth, s),
        !exhausted(s),
    ensures
        complete_inv(g, max_depth, expand(g, max_depth, s)),
{
    let visit = s.queue[s.head];
    let d = visit.depth;
    let s1 = Search { queue: s.queue, head: s.head + 1, visited: s.visited, steps: s.steps };
    let t = expand(g, max_depth, s);
    if d >= max_depth {
        assert(t == s1);
        assert forall|i: int, k: int|
            0 <= i < t.head && t.queue[i].depth < max_depth && 0 <= k < edges_of(g, t.queue[i].node).len() implies {
                &&& reached(t, max_depth, (#[trigger] edges_of(g, (#[trigger] t.queue[i]).node)[k]).destination, (t.queue[i].depth + 1) as nat)
                &&& covered(t, edges_of(g, t.queue[i].node)[k].destination)
            } by {
            if i == s.head {
            } else {
                assert(i < s.head);
            }
        }
        if t.head < t.queue.len() {
            assert forall|i: int| 0 <= i < t.queue.len() implies (#[trigger] t.queue[i]).depth <= t.queue[t.head].depth + 1 by {
                assert(s.queue[i].depth <= d + 1);
                assert(s.queue[s.head].depth <= s.queue[s.head + 1].depth);
            }
        }
    } else {
        let edges = edges_of(g, visit.node);
        assert forall|i: int| 0 <= i < s1.queue.len() implies (#[trigger] s1.queue[i]).depth <= visit.depth + 1 by {}
        lemma_follow_all_complete(max_depth, s1, visit, edges);
        assert(t == follow_all(max_depth, s1, visit, edges));
        assert(t.queue[s.head] == visit) by {
            assert(t.queue.subrange(0, s.queue.len() as int)[s.head] == t.queue[s.head]);
        }
        assert forall|i: int, k: int|
            0 <= i < t.head && t.queue[i].depth < max_depth && 0 <= k < edges_of(g, t.queue[i].node).len() implies {
                &&& reached(t, max_depth, (#[trigger] edges_of(g, (#[trigger] t.queue[i]).node)[k]).destination, (t.queue[i].depth + 1) as nat)
                &&& covered(t, edges_of(g, t.queue[i].node)[k].destination)
            } by {
            if i == s.head {
                assert(edges[k] == edges_of(g, t.queue[i].node)[k]);
            } else {
                assert(t.queue.subrange(0, s.queue.len() as int)[i] == t.queue[i]);
                assert(t.queue[i] == s.queue[i]);
                assert(i < s.head);
                lemma_growth_keeps(s, t, max_depth, edges_of(g, s.queue[i].node)[k].destination, (s.queue[i].depth + 1) as nat);
            }
        }
        if t.head < t.queue.len() {
            assert forall|i: int| 0 <= i < t.queue.len() implies (#[trigger] t.queue[i]).depth <= t.queue[t.head].depth + 1 by {
                assert(t.queue[s.head].depth <= t.queue[t.head].depth);
            }
        }
    }
}

/// Every state of the run satisfies `complete_inv`.
pub proof fn lemma_run_complete(g: GraphView, origin: NodeId, max_depth: usize, n: nat)
    requires
        g.well_formed(),
        g.contains(origin),
    ensures
        complete_inv(g, max_depth, run(g, origin, max_depth, n)),
    decreases n,
{
    if n == 0 {
        let s = start(origin);
        assert(seen_queued(s)) by {
            assert forall|x: NodeId| #[trigger] s.visited.contains(x) implies exists|j: int| 0 <= j < s.queue.len() && (#[trigger] s.queue[j]).node == x by {
                assert(s.queue[0].node == x);
            }
        }
    } else {
        lemma_run_complete(g, origin, max_depth, (n - 1) as nat);
        lemma_run_inv(g, origin, max_depth, (n - 1) as nat);
        let prev = run(g, origin, max_depth, (n - 1) as nat);
        if !exhausted(prev) {
            lemma_expand_complete(g, max_depth, prev);
        }
    }
}

/// Once the search is exhausted, every vertex within `k` relations of the
/// origin, for `k` below `max_depth`, has been queued at a depth of at most `k`
/// (and so expanded).
pub proof fn lemma_search_complete(g: GraphView, origin: NodeId, max_depth: usize, n: nat, u: NodeId, k: nat)
    requires
        g.well_formed(),
        g.contains(origin),
        exhausted(run(g, origin, max_depth, n)),
        within(g, origin, u, k),
        k < max_depth,
    ensures
        exists|j: int| 0 <= j < run(g, origin, max_depth, n).queue.len()
            && (#[trigger] run(g, origin, max_depth, n).queue[j]).node == u
            && run(g, origin, max_depth, n).queue[j].depth <= k,
    decreases k,
{
    let s = run(g, origin, max_depth, n);
    lemma_run_complete(g, origin, max_depth, n);
    lemma_run_inv(g, origin, max_depth, n);
    let path = choose|path: Seq<NodeId>| #[trigger] is_path(g, path) && path[0] == origin && path.last() == u && path.len() <= k + 1;
    if path.len() == 1 {
        assert(u == origin);
        lemma_run_prefix(g, origin, max_depth, n);
        assert(0 < s.queue.len() && s.queue[0].node == u && s.queue[0].depth <= k);
    } else {
        let shorter = path.drop_last();
        let y = shorter.last();
        assert(is_path(g, shorter)) by {
            assert forall|i: int| 0 <= i < shorter.len() - 1 implies adjacent(g, #[trigger] shorter[i], shorter[i + 1]) by {
                assert(shorter[i] == path[i] && shorter[i + 1] == path[i + 1]);
            }
        }
        assert(shorter[0] == origin);
        assert(within(g, origin, y, (k - 1) as nat));
        lemma_search_complete(g, origin, max_depth, n, y, (k - 1) as nat);
        let j = choose|j: int| 0 <= j < s.queue.len() && (#[trigger] s.queue[j]).node == y && s.queue[j].depth <= k - 1;
        assert(adjacent(g, y, u)) by {
            assert(path[path.len() - 2] == y);
        }
        let e = edges_of(g, y);
        let t = if exists|i: int| 0 <= i < g.outgoing[y].len() && (#[trigger] g.outgoing[y][i]).destination == u {
            choose|i: int| 0 <= i < g.outgoing[y].len() && (#[trigger] g.outgoing[y][i]).destination == u
        } else {
            let i = choose|i: int| 0 <= i < g.incoming[y].len() && (#[trigger] g.incoming[y][i]).destination == u;
            g.outgoing[y].len() + i
        };
        assert(e[t].destination == u);
        assert(j < s.head);
        assert(reached(s, max_depth, (#[trigger] edges_of(g, s.queue[j].node)[t]).destination, (s.queue[j].depth + 1) as nat));
        assert(s.queue[j].depth + 1 <= k);
        let j2 = choose|j2: int| 0 <= j2 < s.queue.len() && (#[trigger] s.queue[j2]).node == u && s.queue[j2].depth <= s.queue[j].depth + 1;
        assert(0 <= j2 < s.queue.len() && s.queue[j2].node == u && s.queue[j2].depth <= k);
    }
}

/// The first queued vertex is the origin, at depth zero.
proof fn lemma_run_prefix(g: GraphView, origin: NodeId, max_depth: usize, n: nat)
    ensures
        run(g, origin, max_depth, n).queue.len() >= 1,
        run(g, origin, max_depth, n).queue[0] == (Visit { node: origin, depth: 0, via: None }),
    decreases n,
{
    if n > 0 {
        lemma_run_prefix(g, origin, max_depth, (n - 1) as nat);
        let prev = run(g, origin, max_depth, (n - 1) as nat);
        if !exhausted(prev) {
            let visit = prev.queue[prev.head];
            let s1 = Search { queue: prev.queue, head: prev.head + 1, visited: prev.visited, steps: prev.steps };
            if visit.depth < max_depth {
                lemma_follow_all_prefix(max_depth, s1, visit, edges_of(g, visit.node));
            }
        }
    }
}

/// Following relations only appends to the queue.
proof fn lemma_follow_all_prefix(max_depth: usize, s: Search, visit: Visit, edges: Seq<Edge>)
    ensures
        follow_all(max_depth, s, visit, edges).queue.len() >= s.queue.len(),
        forall|i: int| 0 <= i < s.queue.len() ==> #[trigger] follow_all(max_depth, s, visit, edges).queue[i] == s.queue[i],
    decreases edges.len(),
{
    if edges.len() > 0 {
        lemma_follow_all_prefix(max_depth, s, visit, edges.drop_last());
    }
}

/// The vertices seen so far, one set of ids per vertex kind.
struct VisitedSet {
    clients: HashSet<u64>,
    products: HashSet<u64>,
    categories: HashSet<u64>,
}

impl VisitedSet {
    spec fn has(&self, id: NodeId) -> bool {
        match id {
            NodeId::Client(k) => self.clients@.contains(k),
            NodeId::Product(k) => self.products@.contains(k),
            NodeId::Category(k) => self.categories@.contains(k),
        }
    }

    spec fn view(&self) -> Set<NodeId> {
        Set::new(|id: NodeId| self.has(id))
    }

    fn new() -> (r: Self)
        ensures
            r.view() == Set::<NodeId>::empty(),
    {
        let r = VisitedSet { clients: HashSet::new(), products: HashSet::new(), categories: HashSet::new() };
        assert(r.view() =~= Set::<NodeId>::empty());
        r
    }

    fn contains(&self, id: NodeId) -> (r: bool)
        ensures
            r == self.view().contains(id),
    {
        match id {
            NodeId::Client(k) => self.clients.contains(&k),
            NodeId::Product(k) => self.products.contains(&k),
            NodeId::Category(k) => self.categories.contains(&k),
        }
    }

    fn insert(&mut self, id: NodeId)
        ensures
            final(self).view() == old(self).view().insert(id),
    {
        match id {
            NodeId::Client(k) => {
                self.clients.insert(k);
            },
            NodeId::Product(k) => {
                self.products.insert(k);
            },
            NodeId::Category(k) => {
                self.categories.insert(k);
            },
        }
        assert(self.view() =~= old(self).view().insert(id));
    }
}

/// The steps of the breadth-first search from `origin` (see `search_steps`).
pub fn explore(graph: &Graph, origin: NodeId, max_depth: usize) -> (steps: Vec<Step>)
    requires
        graph.wf(),
        graph@.contains(origin),
    ensures
        steps@ == search_steps(graph@, origin, max_depth),
        forall|i: int| 0 <= i < steps@.len() ==> via_before((#[trigger] steps@[i]).via, i),
        forall|i: int| 0 <= i < steps@.len() ==> graph@.contains((#[trigger] steps@[i]).edge.destination),
{
    let ghost g = graph@;
    let mut queue: VecDeque<Visit> = VecDeque::new();
    queue.push_back(Visit { node: origin, depth: 0, via: None });
    let mut visited = VisitedSet::new();
    visited.insert(origin);
    let mut steps: Vec<Step> = Vec::new();
    let ghost mut head: int = 0;
    let ghost mut k: nat = 0;
    proof {
        lemma_run_inv(g, origin, max_depth, 0);
        assert(visited.view() =~= start(origin).visited);
        assert(queue@ =~= start(origin).queue.subrange(0, 1));
    }
    while queue.len() > 0
        invariant
            graph.wf(),
            g == graph@,
            g.contains(origin),
            0 <= head <= run(g, origin, max_depth, k).queue.len(),
            run(g, origin, max_depth, k).queue.subrange(head, run(g, origin, max_depth, k).queue.len() as int) == queue@,
            run(g, origin, max_depth, k).head == head,
            run(g, origin, max_depth, k).visited == visited.view(),
            run(g, origin, max_depth, k).steps == steps@,
            search_inv(g, run(g, origin, max_depth, k)),
        decreases 2 * g.order.len() - run(g, origin, max_depth, k).queue.len() - head,
    {
        let ghost s = run(g, origin, max_depth, k);
        proof {
            // the queue never holds more vertices than the graph
            assert(s.visited.subset_of(g.order.to_set()));
            vstd::set_lib::lemma_len_subset(s.visited, g.order.to_set());
            g.order.lemma_cardinality_of_set();
        }
        let visit = match queue.pop_front() {
            Some(v) => v,
            None => {
                proof { assert(false); }
                return steps;
            },
        };
        proof {
            assert(visit == s.queue[s.head]);
            head = head + 1;
        }
        let ghost s1 = Search { queue: s.queue, head: s.head + 1, visited: s.visited, steps: s.steps };
        if visit.depth < max_depth {
            proof {
                assert(s.visited.contains(s.queue[s.head].node));
            }
            let out = match graph.outgoing(visit.node) {
                Ok(edges) => edges,
                Err(_) => {
                    proof { assert(false); }
                    return steps;
                },
            };
            let inc = match graph.incoming(visit.node) {
                Ok(edges) => edges,
                Err(_) => {
                    proof { assert(false); }
                    return steps;
                },
            };
            let mut j: usize = 0;
            while j < out.len()
                invariant
                    graph.wf(),
                    g == graph@,
                    out@ == g.outgoing[visit.node],
                    g.contains(visit.node),
                    visit.depth < max_depth,
                    via_before(visit.via, s1.steps.len() as int),
                    search_inv(g, s1),
                    j <= out@.len(),
                    follow_all(max_depth, s1, visit, out@.take(j as int)).queue.subrange(head, follow_all(max_depth, s1, visit, out@.take(j as int)).queue.len() as int) == queue@,
                    follow_all(max_depth, s1, visit, out@.take(j as int)).queue.len() >= head,
                    follow_all(max_depth, s1, visit, out@.take(j as int)).head == head,
                    follow_all(max_depth, s1, visit, out@.take(j as int)).visited == visited.view(),
                    follow_all(max_depth, s1, visit, out@.take(j as int)).steps == steps@,
                decreases out@.len() - j,
            {
                let ghost before = follow_all(max_depth, s1, visit, out@.take(j as int));
                proof {
                    assert forall|i: int| 0 <= i < out@.take(j as int).len() implies g.contains(#[trigger] out@.take(j as int)[i].destination) by {
                        assert(g.valid_out_entry(visit.node, i));
                    }
                    lemma_follow_all_inv(g, max_depth, s1, visit, out@.take(j as int));
                    assert(out@.take(j as int + 1).drop_last() =~= out@.take(j as int));
                }
                let e = out[j];
                let depth = visit.depth + 1;
                steps.push(Step { from: visit.node, via: visit.via, edge: e, depth });
                if depth < max_depth && !visited.contains(e.destination) {
                    visited.insert(e.destination);
                    queue.push_back(Visit { node: e.destination, depth, via: Some(steps.len() - 1) });
                }
                j = j + 1;
                proof {
                    let after = follow(max_depth, before, visit, e);
                    assert(queue@ =~= after.queue.subrange(head, after.queue.len() as int));
                    assert(steps@ =~= follow(max_depth, before, visit, e).steps);
                    assert(visited.view() =~= follow(max_depth, before, visit, e).visited);
                }
            }
            proof {
                assert(out@.take(out@.len() as int) =~= out@);
            }
            let ghost s2 = follow_all(max_depth, s1, visit, out@);
            proof {
                assert forall|i: int| 0 <= i < out@.len() implies g.contains(#[trigger] out@[i].destination) by {
                    assert(g.valid_out_entry(visit.node, i));
                }
                lemma_follow_all_inv(g, max_depth, s1, visit, out@);
            }
            let mut j: usize = 0;
            while j < inc.len()
                invariant
                    graph.wf(),
                    g == graph@,
                    inc@ == g.incoming[visit.node],
                    g.contains(visit.node),
                    visit.depth < max_depth,
                    via_before(visit.via, s2.steps.len() as int),
                    search_inv(g, s2),
                    s2.steps.len() >= s1.steps.len(),
                    j <= inc@.len(),
                    follow_all(max_depth, s2, visit, inc@.take(j as int)).queue.subrange(head, follow_all(max_depth, s2, visit, inc@.take(j as int)).queue.len() as int) == queue@,
                    follow_all(max_depth, s2, visit, inc@.take(j as int)).queue.len() >= head,
                    follow_all(max_depth, s2, visit, inc@.take(j as int)).head == head,
                    follow_all(max_depth, s2, visit, inc@.take(j as int)).visited == visited.view(),
                    follow_all(max_depth, s2, visit, inc@.take(j as int)).steps == steps@,
                decreases inc@.len() - j,
            {
                let ghost before = follow_all(max_depth, s2, visit, inc@.take(j as int));
                proof {
                    assert forall|i: int| 0 <= i < inc@.take(j as int).len() implies g.contains(#[trigger] inc@.take(j as int)[i].destination) by {
                        assert(g.valid_in_entry(visit.node, i));
                    }
                    lemma_follow_all_inv(g, max_depth, s2, visit, inc@.take(j as int));
                    assert(inc@.take(j as int + 1).drop_last() =~= inc@.take(j as int));
                }
                let e = inc[j];
                let depth = visit.depth + 1;
                steps.push(Step { from: visit.node, via: visit.via, edge: e, depth });
                if depth < max_depth && !visited.contains(e.destination) {
                    visited.insert(e.destination);
                    queue.push_back(Visit { node: e.destination, depth, via: Some(steps.len() - 1) });
                }
                j = j + 1;
                proof {
                    let after = follow(max_depth, before, visit, e);
                    assert(queue@ =~= after.queue.subrange(head, after.queue.len() as int));
                    assert(steps@ =~= follow(max_depth, before, visit, e).steps);
                    assert(visited.view() =~= follow(max_depth, before, visit, e).visited);
                }
            }
            proof {
                assert(inc@.take(inc@.len() as int) =~= inc@);
                lemma_follow_all_concat(max_depth, s1, visit, out@, inc@);
            }
        }
        proof {
            lemma_expand_inv(g, max_depth, s);
            k = k + 1;
            lemma_run_inv(g, origin, max_depth, k);
            let t = run(g, origin, max_depth, k);
            assert(t.visited.subset_of(g.order.to_set()));
            vstd::set_lib::lemma_len_subset(t.visited, g.order.to_set());
        }
    }
    proof {
        let n = choose|n: nat| exhausted(run(g, origin, max_depth, n));
        assert(exhausted(run(g, origin, max_depth, k)));
        lemma_exhausted_unique(g, origin, max_depth, k, n);
        assert(steps@ =~= search_steps(g, origin, max_depth));
    }
    steps
}

} // verus!
