//! Properties of the library as a whole, stated over its models.

use vstd::prelude::*;

use crate::benchmark::{is_synthetic, measured_config, scenario_result, synthetic_node, BenchmarkReport};
use crate::error::ConectaStoreError;
use crate::graph::{distinct_keys, find_weight, lemma_upsert, matches_key, upsert, GraphView};
use crate::models::{Edge, NodeId, NodeView, RelationType};
use crate::binary64::{ieee_gt, is_unit_interval, ONE_BITS};
use crate::models::{describe, factor_bits};
use crate::recommendation::{
    answers, answers_request, best_steps, candidate_ids, category_of, deterministic, is_available, lemma_best_is_offered,
    lemma_best_step_is_greatest, lemma_offered_is_candidate, lemma_scores_unique, lemma_top_prefix, offered, purchased,
    ranks_before, scores_follow, RecommendationConfig, RecommendationView,
};
use crate::search::{
    adjacent, covered, edges_of, exhausted, is_path, lemma_run_complete, lemma_run_inv, lemma_run_reach,
    lemma_run_chain, lemma_search_complete, lemma_search_terminates, reach_inv, run, search_steps, step_chained, within,
};

verus! {

/// A vertex that was added can be read back, with no relations yet, and every
/// other vertex is as it was.
pub proof fn law_read_after_add(v: GraphView, n: NodeView)
    requires
        v.well_formed(),
        !v.contains(n.id()),
    ensures
        v.insert_node(n).contains(n.id()),
        v.insert_node(n).nodes[n.id()] == n,
        v.insert_node(n).outgoing[n.id()].len() == 0,
        v.insert_node(n).incoming[n.id()].len() == 0,
        forall|x: NodeId| x != n.id() ==> (v.insert_node(n).contains(x) <==> v.contains(x)),
        forall|x: NodeId| x != n.id() && v.contains(x) ==> v.insert_node(n).nodes[x] == v.nodes[x]
            && v.insert_node(n).outgoing[x] == v.outgoing[x] && v.insert_node(n).incoming[x] == v.incoming[x],
{
}

/// Recording a key twice in a list is recording it once with the second weight.
pub proof fn law_upsert_last_weight_wins(edges: Seq<Edge>, destination: NodeId, relation: RelationType, first: u64, second: u64)
    requires
        distinct_keys(edges),
    ensures
        upsert(upsert(edges, destination, relation, first), destination, relation, second)
            == upsert(edges, destination, relation, second),
{
    lemma_upsert(edges, destination, relation, first);
    let once = upsert(edges, destination, relation, first);
    let e2 = Edge { destination, relation, weight_bits: second };
    if exists|i: int| matches_key(edges, i, destination, relation) {
        let k = choose|i: int| matches_key(edges, i, destination, relation);
        assert(matches_key(once, k, destination, relation));
        let k2 = choose|i: int| matches_key(once, i, destination, relation);
        assert(once[k2].destination == once[k].destination);
        assert(k2 == k);
        assert(upsert(once, destination, relation, second) =~= edges.update(k, e2));
    } else {
        let k = edges.len() as int;
        assert(matches_key(once, k, destination, relation));
        let k2 = choose|i: int| matches_key(once, i, destination, relation);
        assert(once[k2].destination == once[k].destination);
        assert(k2 == k);
        assert(upsert(once, destination, relation, second) =~= edges.push(e2));
    }
}

/// Connecting the same pair through the same relation twice leaves one
/// relation, with the last weight, in both the outgoing list and the reverse
/// index.
pub proof fn law_connect_twice_keeps_last_weight(v: GraphView, from: NodeId, to: NodeId, relation: RelationType, first: u64, second: u64)
    requires
        v.well_formed(),
        v.connect_error(from, to, relation, first) is None,
        v.connect_error(from, to, relation, second) is None,
    ensures
        v.connect_edges(from, to, relation, first).connect_edges(from, to, relation, second)
            == v.connect_edges(from, to, relation, second),
{
    assert(v.contains(from) && v.contains(to));
    law_upsert_last_weight_wins(v.outgoing[from], to, relation, first, second);
    law_upsert_last_weight_wins(v.incoming[to], from, relation, first, second);
    assert(from != to);
    let a = v.connect_edges(from, to, relation, first).connect_edges(from, to, relation, second);
    let b = v.connect_edges(from, to, relation, second);
    assert(a.outgoing =~= b.outgoing);
    assert(a.incoming =~= b.incoming);
}

/// Every outgoing relation `a -> b` appears in the reverse index of `b`, with
/// `a` as its destination, the same relation and the same weight.
pub proof fn law_reverse_index_has_every_relation(v: GraphView, a: NodeId, i: int)
    requires
        v.well_formed(),
        v.contains(a),
        0 <= i < v.outgoing[a].len(),
    ensures
        ({
            let e = v.outgoing[a][i];
            v.incoming[e.destination].contains(Edge { destination: a, relation: e.relation, weight_bits: e.weight_bits })
        }),
{
    let e = v.outgoing[a][i];
    let b = e.destination;
    assert(v.valid_out_entry(a, i));
    assert(matches_key(v.outgoing[a], i, b, e.relation));
    let k = choose|k: int| matches_key(v.outgoing[a], k, b, e.relation);
    assert(v.outgoing[a][k].destination == v.outgoing[a][i].destination);
    assert(find_weight(v.outgoing[a], b, e.relation) == Some(e.weight_bits));
    assert(find_weight(v.incoming[b], a, e.relation) == Some(e.weight_bits));
    let j = choose|j: int| matches_key(v.incoming[b], j, a, e.relation);
    assert(v.incoming[b][j] == Edge { destination: a, relation: e.relation, weight_bits: e.weight_bits });
}

/// Every entry `b <- a` of a reverse index is a relation `a -> b` of the
/// outgoing list of `a`, with the same relation and weight.
pub proof fn law_reverse_index_has_no_other_relation(v: GraphView, b: NodeId, j: int)
    requires
        v.well_formed(),
        v.contains(b),
        0 <= j < v.incoming[b].len(),
    ensures
        ({
            let e = v.incoming[b][j];
            v.outgoing[e.destination].contains(Edge { destination: b, relation: e.relation, weight_bits: e.weight_bits })
        }),
{
    let e = v.incoming[b][j];
    let a = e.destination;
    assert(v.valid_in_entry(b, j));
    assert(matches_key(v.incoming[b], j, a, e.relation));
    let k = choose|k: int| matches_key(v.incoming[b], k, a, e.relation);
    assert(v.incoming[b][k].destination == v.incoming[b][j].destination);
    assert(find_weight(v.incoming[b], a, e.relation) == Some(e.weight_bits));
    assert(find_weight(v.outgoing[a], b, e.relation) == Some(e.weight_bits));
    let i = choose|i: int| matches_key(v.outgoing[a], i, b, e.relation);
    assert(v.outgoing[a][i] == Edge { destination: b, relation: e.relation, weight_bits: e.weight_bits });
}

/// Every recommended product is present, has its `available` flag set, is not
/// excluded, and lies within `max_depth` relations of the origin.
pub proof fn law_recommendations_are_admissible<F: Fn(u64, u64) -> u64>(
    g: GraphView,
    origin: NodeId,
    excluded: Set<u64>,
    config: RecommendationConfig,
    multiply: F,
    recs: Seq<RecommendationView>,
)
    requires
        g.well_formed(),
        g.contains(origin),
        answers_request(g, origin, excluded, config, multiply, recs),
    ensures
        forall|i: int| 0 <= i < recs.len() ==> {
            &&& is_available(g, (#[trigger] recs[i]).product_id)
            &&& g.contains(NodeId::Product(recs[i].product_id))
            &&& g.nodes[NodeId::Product(recs[i].product_id)] matches NodeView::Product { available: true, .. }
            &&& !excluded.contains(recs[i].product_id)
            &&& within(g, origin, NodeId::Product(recs[i].product_id), config.max_depth as nat)
        },
{
    let steps = search_steps(g, origin, config.max_depth);
    let scores = choose|scores: Seq<u64>| #[trigger] scores_follow(multiply, steps, config.distance_decay_bits, scores)
        && answers(g, steps, scores, excluded, config.limit as nat, recs);
    let n = choose|n: nat| exhausted(run(g, origin, config.max_depth, n));
    lemma_run_reach(g, origin, config.max_depth, n);
    let best = crate::recommendation::best_steps(g, excluded, steps, scores, steps.len());
    let ids = recs.map_values(|r: RecommendationView| r.product_id);
    assert forall|i: int| 0 <= i < recs.len() implies {
        &&& is_available(g, (#[trigger] recs[i]).product_id)
        &&& g.contains(NodeId::Product(recs[i].product_id))
        &&& g.nodes[NodeId::Product(recs[i].product_id)] matches NodeView::Product { available: true, .. }
        &&& !excluded.contains(recs[i].product_id)
        &&& within(g, origin, NodeId::Product(recs[i].product_id), config.max_depth as nat)
    } by {
        let id = recs[i].product_id;
        assert(ids[i] == id);
        assert(best.map_values(|k: nat| scores[k as int]).contains_key(ids[i]));
        lemma_best_is_offered(g, excluded, steps, scores, steps.len(), id);
        let b = best[id] as int;
        let st = run(g, origin, config.max_depth, n);
        assert(reach_inv(g, origin, config.max_depth, st));
        assert(steps == st.steps);
        assert(within(g, origin, steps[b].edge.destination, steps[b].depth as nat));
        assert(steps[b].edge.destination == NodeId::Product(id));
        let path = choose|path: Seq<NodeId>| #[trigger] is_path(g, path) && path[0] == origin
            && path.last() == NodeId::Product(id) && path.len() <= steps[b].depth + 1;
        assert(is_path(g, path) && path.len() <= config.max_depth + 1);
    }
}

/// Recommendations come in ranking order (greater score first, then smaller
/// id), name each product once, and are no more than the limit.
pub proof fn law_recommendations_are_ranked<F: Fn(u64, u64) -> u64>(
    g: GraphView,
    origin: NodeId,
    excluded: Set<u64>,
    config: RecommendationConfig,
    multiply: F,
    recs: Seq<RecommendationView>,
)
    requires
        answers_request(g, origin, excluded, config, multiply, recs),
    ensures
        recs.len() <= config.limit,
        forall|i: int, j: int| 0 <= i < j < recs.len() ==> ranks_before(
            (#[trigger] recs[i]).product_id,
            recs[i].score_bits,
            (#[trigger] recs[j]).product_id,
            recs[j].score_bits,
        ),
        forall|i: int, j: int| 0 <= i < j < recs.len() ==> (#[trigger] recs[i]).product_id != (#[trigger] recs[j]).product_id,
{
    let steps = search_steps(g, origin, config.max_depth);
    let scores = choose|scores: Seq<u64>| #[trigger] scores_follow(multiply, steps, config.distance_decay_bits, scores)
        && answers(g, steps, scores, excluded, config.limit as nat, recs);
    let best = crate::recommendation::best_steps(g, excluded, steps, scores, steps.len());
    let candidates = best.map_values(|k: nat| scores[k as int]);
    let ids = recs.map_values(|r: RecommendationView| r.product_id);
    assert forall|i: int, j: int| 0 <= i < j < recs.len() implies ranks_before(
        (#[trigger] recs[i]).product_id,
        recs[i].score_bits,
        (#[trigger] recs[j]).product_id,
        recs[j].score_bits,
    ) && recs[i].product_id != recs[j].product_id by {
        assert(ids[i] == recs[i].product_id && ids[j] == recs[j].product_id);
        assert(ranks_before(ids[i], candidates[ids[i]], ids[j], candidates[ids[j]]));
        assert(candidates.contains_key(ids[i]) && candidates.contains_key(ids[j]));
        assert(recs[i].score_bits == candidates[ids[i]]);
        assert(recs[j].score_bits == candidates[ids[j]]);
    }
}

/// Every available product outside `excluded` that is joined by a relation
/// to a vertex within `max_depth - 1` relations of the origin is a candidate:
/// it is recommended unless the limit is filled.
pub proof fn law_nearby_products_are_recommended<F: Fn(u64, u64) -> u64>(
    g: GraphView,
    origin: NodeId,
    excluded: Set<u64>,
    config: RecommendationConfig,
    multiply: F,
    recs: Seq<RecommendationView>,
    near: NodeId,
    product_id: u64,
)
    requires
        g.well_formed(),
        g.contains(origin),
        config.max_depth >= 1,
        answers_request(g, origin, excluded, config, multiply, recs),
        within(g, origin, near, (config.max_depth - 1) as nat),
        adjacent(g, near, NodeId::Product(product_id)),
        g.contains(NodeId::Product(product_id)),
        g.nodes[NodeId::Product(product_id)] matches NodeView::Product { available: true, .. },
        !excluded.contains(product_id),
    ensures
        recs.len() == config.limit || exists|i: int| 0 <= i < recs.len() && (#[trigger] recs[i]).product_id == product_id,
{
    let md = config.max_depth;
    let steps = search_steps(g, origin, md);
    let scores = choose|scores: Seq<u64>| #[trigger] scores_follow(multiply, steps, config.distance_decay_bits, scores)
        && answers(g, steps, scores, excluded, config.limit as nat, recs);
    lemma_search_terminates(g, origin, md, 0);
    let n = choose|n: nat| exhausted(run(g, origin, md, n));
    let s = run(g, origin, md, n);
    assert(steps == s.steps);
    lemma_run_complete(g, origin, md, n);
    lemma_run_inv(g, origin, md, n);
    lemma_search_complete(g, origin, md, n, near, (md - 1) as nat);
    let j = choose|j: int| 0 <= j < s.queue.len() && (#[trigger] s.queue[j]).node == near && s.queue[j].depth <= md - 1;
    // the relation from `near` to the product
    let target = NodeId::Product(product_id);
    let t = if exists|i: int| 0 <= i < g.outgoing[near].len() && (#[trigger] g.outgoing[near][i]).destination == target {
        choose|i: int| 0 <= i < g.outgoing[near].len() && (#[trigger] g.outgoing[near][i]).destination == target
    } else {
        let i = choose|i: int| 0 <= i < g.incoming[near].len() && (#[trigger] g.incoming[near][i]).destination == target;
        g.outgoing[near].len() + i
    };
    assert(edges_of(g, near)[t].destination == target);
    assert(j < s.head);
    assert(covered(s, (#[trigger] edges_of(g, s.queue[j].node)[t]).destination));
    let k = choose|k: int| 0 <= k < s.steps.len() && (#[trigger] s.steps[k]).edge.destination == target;
    assert(offered(g, excluded, steps[k]) == Some(product_id));
    lemma_offered_is_candidate(g, excluded, steps, scores, steps.len(), k, product_id);
    let best = best_steps(g, excluded, steps, scores, steps.len());
    let candidates = best.map_values(|b: nat| scores[b as int]);
    let ids = recs.map_values(|r: RecommendationView| r.product_id);
    assert(candidates.contains_key(product_id));
    if recs.len() != config.limit && !ids.contains(product_id) {
        // then every candidate is listed, which leaves no room for a missing one
        assert(ids.no_duplicates()) by {
            assert forall|a: int, b: int| 0 <= a < ids.len() && 0 <= b < ids.len() && a != b implies ids[a] != ids[b] by {
                if a < b {
                    assert(ranks_before(ids[a], candidates[ids[a]], ids[b], candidates[ids[b]]));
                } else {
                    assert(ranks_before(ids[b], candidates[ids[b]], ids[a], candidates[ids[a]]));
                }
            }
        }
        ids.unique_seq_to_set();
        assert(ids.to_set().subset_of(candidates.dom().remove(product_id))) by {
            assert forall|x: u64| ids.to_set().contains(x) implies candidates.dom().remove(product_id).contains(x) by {
                let q = choose|q: int| 0 <= q < ids.len() && ids[q] == x;
                assert(candidates.contains_key(ids[q]));
            }
        }
        vstd::set_lib::lemma_len_subset(ids.to_set(), candidates.dom().remove(product_id));
        assert(false);
    }
    if ids.contains(product_id) {
        let q = choose|q: int| 0 <= q < ids.len() && ids[q] == product_id;
        assert(recs[q].product_id == product_id);
    }
}

/// A request from a product never recommends that product.
pub proof fn law_product_origin_is_not_recommended<F: Fn(u64, u64) -> u64>(
    g: GraphView,
    product_id: u64,
    config: RecommendationConfig,
    multiply: F,
    recs: Seq<RecommendationView>,
)
    requires
        g.well_formed(),
        g.contains(NodeId::Product(product_id)),
        answers_request(g, NodeId::Product(product_id), Set::empty().insert(product_id), config, multiply, recs),
    ensures
        forall|i: int| 0 <= i < recs.len() ==> (#[trigger] recs[i]).product_id != product_id,
{
    law_recommendations_are_admissible(g, NodeId::Product(product_id), Set::empty().insert(product_id), config, multiply, recs);
}

/// A request from a client never recommends a product the client purchased.
pub proof fn law_purchased_products_are_not_recommended<F: Fn(u64, u64) -> u64>(
    g: GraphView,
    client_id: u64,
    config: RecommendationConfig,
    multiply: F,
    recs: Seq<RecommendationView>,
)
    requires
        g.well_formed(),
        g.contains(NodeId::Client(client_id)),
        answers_request(g, NodeId::Client(client_id), purchased(g, NodeId::Client(client_id)), config, multiply, recs),
    ensures
        forall|i: int, k: int| 0 <= i < recs.len() && 0 <= k < g.outgoing[NodeId::Client(client_id)].len()
            && (#[trigger] g.outgoing[NodeId::Client(client_id)][k]).relation == RelationType::Purchase ==>
            g.outgoing[NodeId::Client(client_id)][k].destination != NodeId::Product((#[trigger] recs[i]).product_id),
{
    let client = NodeId::Client(client_id);
    law_recommendations_are_admissible(g, client, purchased(g, client), config, multiply, recs);
    assert forall|i: int, k: int| 0 <= i < recs.len() && 0 <= k < g.outgoing[client].len()
        && (#[trigger] g.outgoing[client][k]).relation == RelationType::Purchase implies
        g.outgoing[client][k].destination != NodeId::Product((#[trigger] recs[i]).product_id) by {
        if g.outgoing[client][k].destination == NodeId::Product(recs[i].product_id) {
            assert(purchased(g, client).contains(recs[i].product_id));
        }
    }
}

/// The synthetic store is reproducible: for a given number of products there
/// is one store, with the same vertices in the same order and the same
/// relations in the same lists.
pub proof fn law_synthetic_store_is_reproducible(a: GraphView, b: GraphView, products: nat)
    requires
        is_synthetic(a, products),
        is_synthetic(b, products),
    ensures
        a == b,
{
    assert forall|id: NodeId| a.contains(id) <==> b.contains(id) by {
        assert(a.contains(id) ==> b.contains(id));
        assert(b.contains(id) ==> a.contains(id));
    }
    assert(a.order == b.order);
    assert(a.nodes =~= b.nodes) by {
        assert forall|id: NodeId| #[trigger] a.nodes.contains_key(id) <==> b.nodes.contains_key(id) by {
            assert(a.contains(id) <==> b.contains(id));
        }
        assert forall|id: NodeId| #[trigger] a.nodes.contains_key(id) implies a.nodes[id] == b.nodes[id] by {
            assert(a.contains(id) && b.contains(id));
            assert(a.nodes[id] == synthetic_node(id));
            assert(b.nodes[id] == synthetic_node(id));
        }
    }
    assert(a.outgoing =~= b.outgoing) by {
        assert forall|id: NodeId| #[trigger] a.outgoing.contains_key(id) implies a.outgoing[id] == b.outgoing[id] by {
            assert(a.contains(id) && b.contains(id));
        }
    }
    assert(a.incoming =~= b.incoming) by {
        assert forall|id: NodeId| #[trigger] a.incoming.contains_key(id) implies a.incoming[id] == b.incoming[id] by {
            assert(a.contains(id) && b.contains(id));
        }
    }
    assert(a =~= b);
}

/// A product reached along several relations is recommended with the
/// greatest score among them: its score and reason are those of a relation
/// that reached it, and no relation that reached it scores higher.
pub proof fn law_recommendation_keeps_best_score<F: Fn(u64, u64) -> u64>(
    g: GraphView,
    origin: NodeId,
    excluded: Set<u64>,
    config: RecommendationConfig,
    multiply: F,
    recs: Seq<RecommendationView>,
)
    requires
        answers_request(g, origin, excluded, config, multiply, recs),
    ensures
        ({
            let steps = search_steps(g, origin, config.max_depth);
            exists|scores: Seq<u64>| {
                &&& #[trigger] scores_follow(multiply, steps, config.distance_decay_bits, scores)
                &&& forall|q: int| 0 <= q < recs.len() ==> exists|i: int| {
                    &&& 0 <= i < steps.len()
                    &&& offered(g, excluded, #[trigger] steps[i]) == Some((#[trigger] recs[q]).product_id)
                    &&& scores[i] == recs[q].score_bits
                    &&& recs[q].reason == describe(steps[i].edge.relation)
                }
                &&& forall|q: int, i: int| 0 <= q < recs.len() && 0 <= i < steps.len()
                    && offered(g, excluded, #[trigger] steps[i]) == Some((#[trigger] recs[q]).product_id)
                    ==> !ieee_gt(scores[i], recs[q].score_bits)
            }
        }),
{
    let steps = search_steps(g, origin, config.max_depth);
    let scores = choose|scores: Seq<u64>| #[trigger] scores_follow(multiply, steps, config.distance_decay_bits, scores)
        && answers(g, steps, scores, excluded, config.limit as nat, recs);
    let best = best_steps(g, excluded, steps, scores, steps.len());
    let candidates = best.map_values(|k: nat| scores[k as int]);
    let ids = recs.map_values(|r: RecommendationView| r.product_id);
    assert forall|q: int| 0 <= q < recs.len() implies exists|i: int| {
        &&& 0 <= i < steps.len()
        &&& offered(g, excluded, #[trigger] steps[i]) == Some((#[trigger] recs[q]).product_id)
        &&& scores[i] == recs[q].score_bits
        &&& recs[q].reason == describe(steps[i].edge.relation)
    } by {
        let id = recs[q].product_id;
        assert(ids[q] == id);
        assert(candidates.contains_key(id));
        lemma_best_is_offered(g, excluded, steps, scores, steps.len(), id);
        let b = best[id] as int;
        assert(offered(g, excluded, steps[b]) == Some(recs[q].product_id));
    }
    assert forall|q: int, i: int| 0 <= q < recs.len() && 0 <= i < steps.len()
        && offered(g, excluded, #[trigger] steps[i]) == Some((#[trigger] recs[q]).product_id)
        implies !ieee_gt(scores[i], recs[q].score_bits) by {
        let id = recs[q].product_id;
        assert(ids[q] == id);
        lemma_best_step_is_greatest(g, excluded, steps, scores, steps.len(), i, id);
    }
}

/// Every relation is counted once in each index: the number of relations,
/// summed over the outgoing lists, equals the sum of the lengths of the
/// reverse indexes.
pub proof fn law_relations_counted_once_in_each_index(v: GraphView)
    requires
        v.well_formed(),
    ensures
        v.edge_total() == v.incoming_total(),
{
}

/// The number of recommendations does not depend on the scores: it is the
/// limit, or the number of candidates when there are fewer, and when the limit
/// leaves room every candidate is recommended.
pub proof fn law_recommendation_count<F: Fn(u64, u64) -> u64>(
    g: GraphView,
    origin: NodeId,
    excluded: Set<u64>,
    config: RecommendationConfig,
    multiply: F,
    recs: Seq<RecommendationView>,
)
    requires
        answers_request(g, origin, excluded, config, multiply, recs),
    ensures
        ({
            let c = candidate_ids(g, origin, excluded, config.max_depth);
            &&& c.finite()
            &&& recs.len() == if config.limit < c.len() { config.limit as nat } else { c.len() }
            &&& forall|q: int| 0 <= q < recs.len() ==> c.contains((#[trigger] recs[q]).product_id)
            &&& c.len() <= config.limit ==> forall|id: u64| c.contains(id) ==> exists|q: int|
                0 <= q < recs.len() && (#[trigger] recs[q]).product_id == id
        }),
{
    let c = candidate_ids(g, origin, excluded, config.max_depth);
    let steps = search_steps(g, origin, config.max_depth);
    let scores = choose|scores: Seq<u64>| #[trigger] scores_follow(multiply, steps, config.distance_decay_bits, scores)
        && answers(g, steps, scores, excluded, config.limit as nat, recs);
    let best = best_steps(g, excluded, steps, scores, steps.len());
    let cands = best.map_values(|k: nat| scores[k as int]);
    let ids = recs.map_values(|r: RecommendationView| r.product_id);
    assert(best.dom() =~= c) by {
        assert forall|id: u64| best.contains_key(id) implies c.contains(id) by {
            lemma_best_is_offered(g, excluded, steps, scores, steps.len(), id);
            let b = best[id] as int;
            assert(offered(g, excluded, steps[b]) == Some(id));
        }
        assert forall|id: u64| c.contains(id) implies best.contains_key(id) by {
            let i = choose|i: int| 0 <= i < steps.len() && offered(g, excluded, #[trigger] steps[i]) == Some(id);
            lemma_offered_is_candidate(g, excluded, steps, scores, steps.len(), i, id);
        }
    }
    assert(cands.dom() =~= c);
    assert forall|q: int| 0 <= q < recs.len() implies c.contains((#[trigger] recs[q]).product_id) by {
        assert(ids[q] == recs[q].product_id);
        assert(cands.contains_key(ids[q]));
    }
    if c.len() <= config.limit {
        assert forall|id: u64| c.contains(id) implies exists|q: int| 0 <= q < recs.len() && (#[trigger] recs[q]).product_id == id by {
            if !ids.contains(id) {
                assert(ids.no_duplicates()) by {
                    assert forall|a: int, b: int| 0 <= a < ids.len() && 0 <= b < ids.len() && a != b implies ids[a] != ids[b] by {
                        if a < b {
                            assert(ranks_before(ids[a], cands[ids[a]], ids[b], cands[ids[b]]));
                        } else {
                            assert(ranks_before(ids[b], cands[ids[b]], ids[a], cands[ids[a]]));
                        }
                    }
                }
                ids.unique_seq_to_set();
                assert(ids.to_set().subset_of(c.remove(id))) by {
                    assert forall|x: u64| ids.to_set().contains(x) implies c.remove(id).contains(x) by {
                        let q = choose|q: int| 0 <= q < ids.len() && ids[q] == x;
                        assert(cands.contains_key(ids[q]));
                    }
                }
                vstd::set_lib::lemma_len_subset(ids.to_set(), c.remove(id));
                assert(false);
            }
            let q = choose|q: int| 0 <= q < ids.len() && ids[q] == id;
            assert(recs[q].product_id == id);
        }
    }
}

/// Measuring the same volume twice, with `measure_scenario` or
/// `run_benchmark` and with any multiplications, gives the same outcome: the
/// same error, or reports that agree on every count; only the times may differ.
pub proof fn law_measurements_agree<F: Fn(u64, u64) -> u64, G: Fn(u64, u64) -> u64>(
    products: usize,
    first_multiply: F,
    second_multiply: G,
    first: Result<BenchmarkReport, ConectaStoreError>,
    second: Result<BenchmarkReport, ConectaStoreError>,
)
    requires
        scenario_result(products, first_multiply, first),
        scenario_result(products, second_multiply, second),
    ensures
        match (first, second) {
            (Ok(a), Ok(b)) => {
                &&& a.clients == b.clients
                &&& a.products == b.products
                &&& a.vertices == b.vertices
                &&& a.edges == b.edges
                &&& a.candidates_found == b.candidates_found
            },
            (Err(a), Err(b)) => a == b,
            _ => false,
        },
{
    if let (Ok(a), Ok(b)) = (first, second) {
        let config = measured_config(products as nat);
        let (g1, recs1) = choose|g: GraphView, recs: Seq<RecommendationView>| {
            &&& is_synthetic(g, products as nat)
            &&& answers_request(g, NodeId::Client(1), purchased(g, NodeId::Client(1)), config, first_multiply, recs)
            &&& a.candidates_found == recs.len()
        };
        let (g2, recs2) = choose|g: GraphView, recs: Seq<RecommendationView>| {
            &&& is_synthetic(g, products as nat)
            &&& answers_request(g, NodeId::Client(1), purchased(g, NodeId::Client(1)), config, second_multiply, recs)
            &&& b.candidates_found == recs.len()
        };
        law_synthetic_store_is_reproducible(g1, g2, products as nat);
        law_recommendation_count(g1, NodeId::Client(1), purchased(g1, NodeId::Client(1)), config, first_multiply, recs1);
        law_recommendation_count(g2, NodeId::Client(1), purchased(g2, NodeId::Client(1)), config, second_multiply, recs2);
    }
}

/// With a multiplication that gives one result for each pair of arguments, a
/// request with a smaller limit returns the first recommendations of the same
/// request with a larger limit.
pub proof fn law_smaller_limit_gives_prefix<F: Fn(u64, u64) -> u64>(
    g: GraphView,
    origin: NodeId,
    excluded: Set<u64>,
    smaller: RecommendationConfig,
    larger: RecommendationConfig,
    multiply: F,
    short: Seq<RecommendationView>,
    long: Seq<RecommendationView>,
)
    requires
        g.well_formed(),
        g.contains(origin),
        deterministic(multiply),
        smaller.max_depth == larger.max_depth,
        smaller.distance_decay_bits == larger.distance_decay_bits,
        smaller.limit <= larger.limit,
        answers_request(g, origin, excluded, smaller, multiply, short),
        answers_request(g, origin, excluded, larger, multiply, long),
    ensures
        short.len() <= long.len(),
        short == long.take(short.len() as int),
{
    let md = smaller.max_depth;
    let decay = smaller.distance_decay_bits;
    let steps = search_steps(g, origin, md);
    lemma_search_terminates(g, origin, md, 0);
    let n = choose|n: nat| exhausted(run(g, origin, md, n));
    lemma_run_inv(g, origin, md, n);
    assert(steps == run(g, origin, md, n).steps);
    let s1 = choose|scores: Seq<u64>| #[trigger] scores_follow(multiply, steps, decay, scores)
        && answers(g, steps, scores, excluded, smaller.limit as nat, short);
    let s2 = choose|scores: Seq<u64>| #[trigger] scores_follow(multiply, steps, decay, scores)
        && answers(g, steps, scores, excluded, larger.limit as nat, long);
    lemma_scores_unique(multiply, steps, decay, s1, s2, steps.len());
    assert(s1 =~= s2);
    let best = best_steps(g, excluded, steps, s1, steps.len());
    let cands = best.map_values(|k: nat| s1[k as int]);
    let ids1 = short.map_values(|r: RecommendationView| r.product_id);
    let ids2 = long.map_values(|r: RecommendationView| r.product_id);
    lemma_top_prefix(ids1, ids2, cands, smaller.limit as nat, larger.limit as nat);
    assert forall|q: int| 0 <= q < short.len() implies short[q] == long[q] by {
        assert(ids1[q] == ids2.take(ids1.len() as int)[q]);
        assert(ids1[q] == short[q].product_id && ids2[q] == long[q].product_id);
    }
    assert(short =~= long.take(short.len() as int));
}

/// The kinds of vertex a relation joins: purchases, interests and ratings go
/// from a client to a product, category membership from a product to a
/// category, and similarity from a product to another product.
pub open spec fn joins_documented_kinds(from: NodeId, to: NodeId, relation: RelationType) -> bool {
    match relation {
        RelationType::Purchase => from is Client && to is Product,
        RelationType::Interest => from is Client && to is Product,
        RelationType::Rating => from is Client && to is Product,
        RelationType::BelongsToCategory => from is Product && to is Category,
        RelationType::Similarity => from is Product && to is Product && from != to,
    }
}

/// A relation is recorded exactly when both vertices are present, the weight
/// is a finite value in `0.0..=1.0`, and the relation joins the documented
/// kinds of vertex; with present vertices and a valid weight, any other pair
/// of kinds is refused with `InvalidRelationship`.
pub proof fn law_connect_accepts_only_documented_kinds(v: GraphView, from: NodeId, to: NodeId, relation: RelationType, weight_bits: u64)
    ensures
        v.connect_error(from, to, relation, weight_bits) is None <==> (v.contains(from) && v.contains(to)
            && is_unit_interval(weight_bits) && joins_documented_kinds(from, to, relation)),
        v.contains(from) && v.contains(to) && is_unit_interval(weight_bits) && !joins_documented_kinds(from, to, relation)
            ==> v.connect_error(from, to, relation, weight_bits) == Some(ConectaStoreError::InvalidRelationship { from, to }),
{
}

/// Every stored relation joins the documented kinds of vertex.
pub proof fn law_stored_relations_join_documented_kinds(v: GraphView, a: NodeId, i: int)
    requires
        v.well_formed(),
        v.contains(a),
        0 <= i < v.outgoing[a].len(),
    ensures
        joins_documented_kinds(a, v.outgoing[a][i].destination, v.outgoing[a][i].relation),
{
    assert(v.valid_out_entry(a, i));
}

/// No relation leaves a category, and no relation arrives at a client.
pub proof fn law_categories_have_no_outgoing_and_clients_no_incoming(v: GraphView, id: NodeId)
    requires
        v.well_formed(),
        v.contains(id),
    ensures
        id is Category ==> v.outgoing[id].len() == 0,
        id is Client ==> v.incoming[id].len() == 0,
{
    if v.outgoing[id].len() > 0 {
        assert(v.valid_out_entry(id, 0));
        law_stored_relations_join_documented_kinds(v, id, 0);
    }
    if v.incoming[id].len() > 0 {
        assert(v.valid_in_entry(id, 0));
        let e = v.incoming[id][0];
        law_reverse_index_has_no_other_relation(v, id, 0);
        let k = choose|k: int| 0 <= k < v.outgoing[e.destination].len()
            && v.outgoing[e.destination][k] == Edge { destination: id, relation: e.relation, weight_bits: e.weight_bits };
        law_stored_relations_join_documented_kinds(v, e.destination, k);
    }
}

/// Every followed relation scores the same way, at every depth: the score on
/// which it builds (that of the relation that reached its starting vertex, or
/// 1.0 from the origin), times its weight, times its relation's factor, times
/// the decay, multiplied left to right with `multiply`. Each followed relation
/// is a relation of the vertex it leaves, and builds on the earlier relation
/// that reached that vertex (or leaves the origin). Every recommendation
/// carries the score of a relation that reached its product.
pub proof fn law_every_relation_scores_with_its_factor<F: Fn(u64, u64) -> u64>(
    g: GraphView,
    origin: NodeId,
    excluded: Set<u64>,
    config: RecommendationConfig,
    multiply: F,
    recs: Seq<RecommendationView>,
)
    requires
        g.well_formed(),
        g.contains(origin),
        search_steps(g, origin, config.max_depth).len() <= usize::MAX,
        answers_request(g, origin, excluded, config, multiply, recs),
    ensures
        forall|i: int| 0 <= i < search_steps(g, origin, config.max_depth).len()
            ==> #[trigger] step_chained(g, origin, search_steps(g, origin, config.max_depth), i),
        ({
            let steps = search_steps(g, origin, config.max_depth);
            exists|scores: Seq<u64>| {
                &&& scores.len() == steps.len()
                &&& forall|i: int| #![trigger steps[i]] 0 <= i < steps.len() ==> exists|x: u64, y: u64|
                    #![trigger call_ensures(multiply, (x, factor_bits(steps[i].edge.relation)), y)]
                {
                    &&& call_ensures(multiply, (match steps[i].via { Some(j) => scores[j as int], None => ONE_BITS }, steps[i].edge.weight_bits), x)
                    &&& call_ensures(multiply, (x, factor_bits(steps[i].edge.relation)), y)
                    &&& call_ensures(multiply, (y, config.distance_decay_bits), scores[i])
                }
                &&& forall|q: int| 0 <= q < recs.len() ==> exists|i: int| {
                    &&& 0 <= i < steps.len()
                    &&& steps[i].edge.destination == NodeId::Product((#[trigger] recs[q]).product_id)
                    &&& scores[i] == recs[q].score_bits
                }
            }
        }),
{
    let steps = search_steps(g, origin, config.max_depth);
    lemma_search_terminates(g, origin, config.max_depth, 0);
    let n = choose|n: nat| exhausted(run(g, origin, config.max_depth, n));
    assert(steps == run(g, origin, config.max_depth, n).steps);
    lemma_run_chain(g, origin, config.max_depth, n);
    let scores = choose|scores: Seq<u64>| #[trigger] scores_follow(multiply, steps, config.distance_decay_bits, scores)
        && answers(g, steps, scores, excluded, config.limit as nat, recs);
    let best = best_steps(g, excluded, steps, scores, steps.len());
    let cands = best.map_values(|k: nat| scores[k as int]);
    let ids = recs.map_values(|r: RecommendationView| r.product_id);
    assert forall|i: int| #![trigger steps[i]] 0 <= i < steps.len() implies exists|x: u64, y: u64|
        #![trigger call_ensures(multiply, (x, factor_bits(steps[i].edge.relation)), y)]
    {
        &&& call_ensures(multiply, (match steps[i].via { Some(j) => scores[j as int], None => ONE_BITS }, steps[i].edge.weight_bits), x)
        &&& call_ensures(multiply, (x, factor_bits(steps[i].edge.relation)), y)
        &&& call_ensures(multiply, (y, config.distance_decay_bits), scores[i])
    } by {
        assert(crate::recommendation::scored_by(
            multiply,
            crate::recommendation::base_score(steps, scores, i),
            steps[i],
            config.distance_decay_bits,
            scores[i],
        ));
    }
    assert forall|q: int| 0 <= q < recs.len() implies exists|i: int| {
        &&& 0 <= i < steps.len()
        &&& steps[i].edge.destination == NodeId::Product((#[trigger] recs[q]).product_id)
        &&& scores[i] == recs[q].score_bits
    } by {
        let id = recs[q].product_id;
        assert(ids[q] == id);
        assert(cands.contains_key(id));
        lemma_best_is_offered(g, excluded, steps, scores, steps.len(), id);
        let b = best[id] as int;
        assert(offered(g, excluded, steps[b]) == Some(id));
    }
}

/// The relation is a category membership that reaches a category.
pub open spec fn reaches_category(g: GraphView, e: Edge) -> bool {
    e.relation == RelationType::BelongsToCategory && g.nodes[e.destination] is Category
}

/// Scanning a list of relations for the first category membership.
proof fn lemma_category_scan(g: GraphView, edges: Seq<Edge>)
    ensures
        forall|i: int| 0 <= i < edges.len() && reaches_category(g, #[trigger] edges[i])
            && (forall|j: int| 0 <= j < i ==> !reaches_category(g, #[trigger] edges[j]))
            ==> category_of(g, edges) == g.nodes[edges[i].destination].name(),
        (forall|i: int| 0 <= i < edges.len() ==> !reaches_category(g, #[trigger] edges[i]))
            ==> category_of(g, edges) == "Sem categoria"@,
    decreases edges.len(),
{
    if edges.len() > 0 {
        let rest = edges.skip(1);
        lemma_category_scan(g, rest);
        if !reaches_category(g, edges[0]) {
            assert forall|i: int| 0 <= i < edges.len() && reaches_category(g, #[trigger] edges[i])
                && (forall|j: int| 0 <= j < i ==> !reaches_category(g, #[trigger] edges[j]))
                implies category_of(g, edges) == g.nodes[edges[i].destination].name() by {
                assert(i > 0);
                assert(rest[i - 1] == edges[i]);
                assert forall|j: int| 0 <= j < i - 1 implies !reaches_category(g, #[trigger] rest[j]) by {
                    assert(rest[j] == edges[j + 1]);
                }
            }
            if forall|i: int| 0 <= i < edges.len() ==> !reaches_category(g, #[trigger] edges[i]) {
                assert forall|i: int| 0 <= i < rest.len() implies !reaches_category(g, #[trigger] rest[i]) by {
                    assert(rest[i] == edges[i + 1]);
                }
            }
        } else {
            assert forall|i: int| 0 <= i < edges.len() && reaches_category(g, #[trigger] edges[i])
                && (forall|j: int| 0 <= j < i ==> !reaches_category(g, #[trigger] edges[j]))
                implies category_of(g, edges) == g.nodes[edges[i].destination].name() by {
                if i > 0 {
                    assert(!reaches_category(g, edges[0]));
                }
            }
        }
    }
}

/// The category shown with a recommendation is the name of the first category
/// that the product's relations reach through category membership, wherever
/// that relation stands in its list, and "Sem categoria" when none does.
pub proof fn law_category_is_first_category_relation<F: Fn(u64, u64) -> u64>(
    g: GraphView,
    origin: NodeId,
    excluded: Set<u64>,
    config: RecommendationConfig,
    multiply: F,
    recs: Seq<RecommendationView>,
)
    requires
        answers_request(g, origin, excluded, config, multiply, recs),
    ensures
        forall|q: int, i: int| 0 <= q < recs.len() && 0 <= i < g.outgoing[NodeId::Product((#[trigger] recs[q]).product_id)].len()
            && reaches_category(g, #[trigger] g.outgoing[NodeId::Product(recs[q].product_id)][i])
            && (forall|j: int| 0 <= j < i ==> !reaches_category(g, #[trigger] g.outgoing[NodeId::Product(recs[q].product_id)][j]))
            ==> recs[q].category == g.nodes[g.outgoing[NodeId::Product(recs[q].product_id)][i].destination].name(),
        forall|q: int| 0 <= q < recs.len() && (forall|i: int| 0 <= i < g.outgoing[NodeId::Product((#[trigger] recs[q]).product_id)].len()
            ==> !reaches_category(g, #[trigger] g.outgoing[NodeId::Product(recs[q].product_id)][i]))
            ==> recs[q].category == "Sem categoria"@,
{
    let steps = search_steps(g, origin, config.max_depth);
    let scores = choose|scores: Seq<u64>| #[trigger] scores_follow(multiply, steps, config.distance_decay_bits, scores)
        && answers(g, steps, scores, excluded, config.limit as nat, recs);
    assert forall|q: int| 0 <= q < recs.len() implies (#[trigger] recs[q]).category == category_of(
        g,
        g.outgoing[NodeId::Product(recs[q].product_id)],
    ) by {
        let best = best_steps(g, excluded, steps, scores, steps.len());
        assert(recs[q] == crate::recommendation::describe_candidate(g, steps, scores, recs[q].product_id, best[recs[q].product_id]));
    }
    assert forall|q: int, i: int| 0 <= q < recs.len() && 0 <= i < g.outgoing[NodeId::Product((#[trigger] recs[q]).product_id)].len()
        && reaches_category(g, #[trigger] g.outgoing[NodeId::Product(recs[q].product_id)][i])
        && (forall|j: int| 0 <= j < i ==> !reaches_category(g, #[trigger] g.outgoing[NodeId::Product(recs[q].product_id)][j]))
        implies recs[q].category == g.nodes[g.outgoing[NodeId::Product(recs[q].product_id)][i].destination].name() by {
        lemma_category_scan(g, g.outgoing[NodeId::Product(recs[q].product_id)]);
    }
    assert forall|q: int| 0 <= q < recs.len() && (forall|i: int| 0 <= i < g.outgoing[NodeId::Product((#[trigger] recs[q]).product_id)].len()
        ==> !reaches_category(g, #[trigger] g.outgoing[NodeId::Product(recs[q].product_id)][i]))
        implies recs[q].category == "Sem categoria"@ by {
        lemma_category_scan(g, g.outgoing[NodeId::Product(recs[q].product_id)]);
    }
}

} // verus!
