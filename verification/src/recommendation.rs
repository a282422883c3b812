//! Scoring, filtering and ranking of product recommendations.
//!
//! A recommendation request explores the graph breadth-first from its origin
//! (see `search`), scores every followed relation, keeps for each admissible
//! product the best-scoring relation that reached it, and returns the
//! products ranked by decreasing score, then increasing id, up to a limit.
//!
//! Scores are binary64 values carried by their bit patterns. The library does
//! not compute binary64 products itself: the caller hands in `multiply`, and
//! every statement below holds for the products it returns.

use std::collections::{HashMap, HashSet};

use vstd::prelude::*;
use vstd::std_specs::cmp::PartialEqSpecImpl;

use crate::binary64::{
    equal, ieee_eq, ieee_gt, in_unit_interval, is_unit_interval, lemma_not_gt_then_gt, lemma_order_key, less_than, order_key, total_order_key,
    ONE_BITS,
};
use crate::error::ConectaStoreError;
use crate::graph::{Graph, GraphView};
use crate::models::{describe, factor_bits, Edge, Node, NodeId, NodeView, RelationType};
use crate::search::{explore, search_steps, via_before, Step};

verus! {

/// How far to search and how many results to return.
#[derive(Debug, Clone, Copy)]
pub struct RecommendationConfig {
    /// The largest number of relations between the origin and a recommended product.
    pub max_depth: usize,
    /// The largest number of recommendations returned.
    pub limit: usize,
    /// Bit pattern of the binary64 factor applied to the score at every step.
    pub distance_decay_bits: u64,
}

/// Bit pattern of `0.85`, the default distance decay.
pub const DEFAULT_DECAY_BITS: u64 = 0x3FEB_3333_3333_3333;

impl Default for RecommendationConfig {
    /// Depth 3, five results, decay 0.85.
    fn default() -> (r: Self)
        ensures
            r.max_depth == 3,
            r.limit == 5,
            r.distance_decay_bits == DEFAULT_DECAY_BITS,
    {
        RecommendationConfig { max_depth: 3, limit: 5, distance_decay_bits: DEFAULT_DECAY_BITS }
    }
}

/// A recommendation ready to be shown. `score_bits` is the bit pattern of the
/// binary64 score.
#[derive(Debug, Clone)]
pub struct Recommendation {
    pub product_id: u64,
    pub name: String,
    pub category: String,
    pub score_bits: u64,
    pub reason: String,
}

/// Two recommendations are equal when their fields are, scores compared as
/// binary64 values.
impl PartialEq for Recommendation {
    fn eq(&self, other: &Self) -> (r: bool) {
        self.product_id == other.product_id && self.name == other.name && self.category == other.category
            && equal(self.score_bits, other.score_bits) && self.reason == other.reason
    }
}

impl PartialEqSpecImpl for Recommendation {
    open spec fn obeys_eq_spec() -> bool {
        true
    }

    open spec fn eq_spec(&self, other: &Self) -> bool {
        &&& self.product_id == other.product_id
        &&& self.name@ == other.name@
        &&& self.category@ == other.category@
        &&& ieee_eq(self.score_bits, other.score_bits)
        &&& self.reason@ == other.reason@
    }
}

/// A recommendation with its texts as character sequences.
pub struct RecommendationView {
    pub product_id: u64,
    pub name: Seq<char>,
    pub category: Seq<char>,
    pub score_bits: u64,
    pub reason: Seq<char>,
}

impl View for Recommendation {
    type V = RecommendationView;

    open spec fn view(&self) -> RecommendationView {
        RecommendationView {
            product_id: self.product_id,
            name: self.name@,
            category: self.category@,
            score_bits: self.score_bits,
            reason: self.reason@,
        }
    }
}

/// Why a request is refused, checked in this order: a missing origin, a zero
/// limit, a zero depth, and a decay that is not a finite value in `0.0..=1.0`.
pub open spec fn request_error(g: GraphView, origin: NodeId, config: RecommendationConfig) -> Option<ConectaStoreError> {
    if !g.contains(origin) {
        Some(ConectaStoreError::NodeNotFound(origin))
    } else if config.limit == 0 {
        Some(ConectaStoreError::InvalidLimit)
    } else if config.max_depth == 0 {
        Some(ConectaStoreError::InvalidDepth)
    } else if !is_unit_interval(config.distance_decay_bits) {
        Some(ConectaStoreError::InvalidWeight(config.distance_decay_bits))
    } else {
        None
    }
}

/// The ids of the products that the client's purchase relations reach.
pub open spec fn purchased(g: GraphView, client: NodeId) -> Set<u64> {
    Set::new(|id: u64| exists|i: int| 0 <= i < g.outgoing[client].len()
        && (#[trigger] g.outgoing[client][i]).relation == RelationType::Purchase
        && g.outgoing[client][i].destination == NodeId::Product(id))
}

/// The product is present and available.
pub open spec fn is_available(g: GraphView, id: u64) -> bool {
    g.contains(NodeId::Product(id)) && match g.nodes[NodeId::Product(id)] {
        NodeView::Product { available, .. } => available,
        _ => false,
    }
}

/// The product that a step offers as a candidate: its destination, when that
/// is an available product outside `excluded`.
pub open spec fn offered(g: GraphView, excluded: Set<u64>, step: Step) -> Option<u64> {
    match step.edge.destination {
        NodeId::Product(id) => if !excluded.contains(id) && is_available(g, id) {
            Some(id)
        } else {
            None
        },
        _ => None,
    }
}

/// For every candidate among the first `n` steps, the step that gives its
/// score: the first offer, replaced by a later one only when strictly greater.
pub open spec fn best_steps(g: GraphView, excluded: Set<u64>, steps: Seq<Step>, scores: Seq<u64>, n: nat) -> Map<u64, nat>
    decreases n,
{
    if n == 0 {
        Map::empty()
    } else {
        let m = best_steps(g, excluded, steps, scores, (n - 1) as nat);
        let i = n - 1;
        match offered(g, excluded, steps[i]) {
            Some(id) => if !m.contains_key(id) || ieee_gt(scores[i], scores[m[id] as int]) {
                m.insert(id, i as nat)
            } else {
                m
            },
            None => m,
        }
    }
}

/// `a` comes before `b` in the ranking: a greater score in the total order
/// of `f64::total_cmp`, or the same score and a smaller id.
pub open spec fn ranks_before(a: u64, a_score: u64, b: u64, b_score: u64) -> bool {
    order_key(a_score) > order_key(b_score) || (order_key(a_score) == order_key(b_score) && a < b)
}

/// The products that a request could recommend: those offered by some step
/// of the search, whatever the scores.
pub open spec fn candidate_ids(g: GraphView, origin: NodeId, excluded: Set<u64>, max_depth: usize) -> Set<u64> {
    let steps = search_steps(g, origin, max_depth);
    Set::new(|id: u64| exists|i: int| 0 <= i < steps.len() && offered(g, excluded, #[trigger] steps[i]) == Some(id))
}

/// A map of step positions held in machine integers names the same steps as
/// one held in natural numbers.
pub open spec fn same_choice(exec: Map<u64, usize>, spec: Map<u64, nat>) -> bool {
    &&& exec.dom() == spec.dom()
    &&& forall|id: u64| #[trigger] exec.contains_key(id) ==> exec[id] as nat == spec[id]
}

/// `ids` are the `limit` best candidates of `scores`, in ranking order (all of
/// them, when there are fewer).
pub open spec fn is_top_ranked(ids: Seq<u64>, scores: Map<u64, u64>, limit: nat) -> bool {
    &&& scores.dom().finite()
    &&& ids.len() == if limit < scores.dom().len() { limit } else { scores.dom().len() }
    &&& forall|i: int| 0 <= i < ids.len() ==> scores.contains_key(#[trigger] ids[i])
    &&& forall|i: int, j: int| 0 <= i < j < ids.len() ==> ranks_before(#[trigger] ids[i], scores[ids[i]], #[trigger] ids[j], scores[ids[j]])
    &&& forall|c: u64| #[trigger] scores.contains_key(c) && !ids.contains(c) ==> forall|i: int| 0 <= i < ids.len() ==> ranks_before(#[trigger] ids[i], scores[ids[i]], c, scores[c])
}

/// The name of the first category that the relations reach through
/// `BelongsToCategory`, or `"Sem categoria"`.
pub open spec fn category_of(g: GraphView, edges: Seq<Edge>) -> Seq<char>
    decreases edges.len(),
{
    if edges.len() == 0 {
        "Sem categoria"@
    } else if edges[0].relation == RelationType::BelongsToCategory && g.nodes[edges[0].destination] is Category {
        g.nodes[edges[0].destination].name()
    } else {
        category_of(g, edges.skip(1))
    }
}

/// The recommendation of candidate `id`, whose score is given by step `best`.
pub open spec fn describe_candidate(g: GraphView, steps: Seq<Step>, scores: Seq<u64>, id: u64, best: nat) -> RecommendationView {
    RecommendationView {
        product_id: id,
        name: g.nodes[NodeId::Product(id)].name(),
        category: category_of(g, g.outgoing[NodeId::Product(id)]),
        score_bits: scores[best as int],
        reason: describe(steps[best as int].edge.relation),
    }
}

/// The score on which step `i` builds: that of its `via` step, or 1.0.
pub open spec fn base_score(steps: Seq<Step>, scores: Seq<u64>, i: int) -> u64 {
    match steps[i].via {
        Some(j) => scores[j as int],
        None => ONE_BITS,
    }
}

/// `score` is `base * weight * factor * decay`, multiplied left to right with `multiply`.
pub open spec fn scored_by<F: Fn(u64, u64) -> u64>(multiply: F, base: u64, step: Step, decay: u64, score: u64) -> bool {
    exists|x: u64, y: u64|
        #![trigger call_ensures(multiply, (base, step.edge.weight_bits), x), call_ensures(multiply, (x, factor_bits(step.edge.relation)), y)]
        call_ensures(multiply, (base, step.edge.weight_bits), x)
        && call_ensures(multiply, (x, factor_bits(step.edge.relation)), y)
        && call_ensures(multiply, (y, decay), score)
}

/// `scores` holds the score of every step.
pub open spec fn scores_follow<F: Fn(u64, u64) -> u64>(multiply: F, steps: Seq<Step>, decay: u64, scores: Seq<u64>) -> bool {
    &&& scores.len() == steps.len()
    &&& forall|i: int| 0 <= i < steps.len() ==> scored_by(multiply, base_score(steps, scores, i), #[trigger] steps[i], decay, scores[i])
}

/// `recs` answers the request: the top `limit` candidates in ranking order,
/// each described by its best step.
pub open spec fn answers(g: GraphView, steps: Seq<Step>, scores: Seq<u64>, excluded: Set<u64>, limit: nat, recs: Seq<RecommendationView>) -> bool {
    let best = best_steps(g, excluded, steps, scores, steps.len());
    let candidates = best.map_values(|i: nat| scores[i as int]);
    &&& is_top_ranked(recs.map_values(|r: RecommendationView| r.product_id), candidates, limit)
    &&& forall|i: int| 0 <= i < recs.len() ==> #[trigger] recs[i] == describe_candidate(g, steps, scores, recs[i].product_id, best[recs[i].product_id])
}

/// `recs` is what a request from `origin` returns, for scores computed with `multiply`.
pub open spec fn answers_request<F: Fn(u64, u64) -> u64>(g: GraphView, origin: NodeId, excluded: Set<u64>, config: RecommendationConfig, multiply: F, recs: Seq<RecommendationView>) -> bool {
    let steps = search_steps(g, origin, config.max_depth);
    exists|scores: Seq<u64>| #[trigger] scores_follow(multiply, steps, config.distance_decay_bits, scores)
        && answers(g, steps, scores, excluded, config.limit as nat, recs)
}

/// A recommendation service that reads a graph without changing it.
pub struct RecommendationEngine<'a> {
    graph: &'a Graph,
}

impl<'a> View for RecommendationEngine<'a> {
    type V = GraphView;

    closed spec fn view(&self) -> GraphView {
        self.graph@
    }
}

impl<'a> RecommendationEngine<'a> {
    /// The engine reads a well-formed graph.
    pub closed spec fn wf(&self) -> bool {
        self.graph.wf()
    }

    /// The graph an engine reads is well formed.
    pub proof fn lemma_well_formed(&self)
        requires
            self.wf(),
        ensures
            self@.well_formed(),
    {
    }

    /// An engine over `graph`.
    pub fn new(graph: &'a Graph) -> (r: Self)
        requires
            graph.wf(),
        ensures
            r.wf(),
            r@ == graph@,
    {
        RecommendationEngine { graph }
    }

    /// Recommends to a client, leaving out every product the client bought.
    pub fn for_client<F: Fn(u64, u64) -> u64>(&self, client_id: u64, config: RecommendationConfig, multiply: F) -> (r: Result<Vec<Recommendation>, ConectaStoreError>)
        requires
            self.wf(),
            forall|a: u64, b: u64| call_requires(multiply, (a, b)),
        ensures
            match r {
                Ok(recs) => request_error(self@, NodeId::Client(client_id), config) is None
                    && answers_request(self@, NodeId::Client(client_id), purchased(self@, NodeId::Client(client_id)), config, multiply,
                        recs@.map_values(|x: Recommendation| x@))
                    && search_steps(self@, NodeId::Client(client_id), config.max_depth).len() <= usize::MAX,
                Err(e) => request_error(self@, NodeId::Client(client_id), config) == Some(e),
            },
    {
        let origin = NodeId::Client(client_id);
        self.ensure_origin(origin)?;
        let purchased = match self.purchased_products(origin) {
            Ok(set) => set,
            Err(e) => {
                return Err(e);
            },
        };
        self.search(origin, &purchased, config, multiply)
    }

    /// Recommends products related to a product, never the product itself.
    pub fn for_product<F: Fn(u64, u64) -> u64>(&self, product_id: u64, config: RecommendationConfig, multiply: F) -> (r: Result<Vec<Recommendation>, ConectaStoreError>)
        requires
            self.wf(),
            forall|a: u64, b: u64| call_requires(multiply, (a, b)),
        ensures
            match r {
                Ok(recs) => request_error(self@, NodeId::Product(product_id), config) is None
                    && answers_request(self@, NodeId::Product(product_id), Set::empty().insert(product_id), config, multiply,
                        recs@.map_values(|x: Recommendation| x@))
                    && search_steps(self@, NodeId::Product(product_id), config.max_depth).len() <= usize::MAX,
                Err(e) => request_error(self@, NodeId::Product(product_id), config) == Some(e),
            },
    {
        let origin = NodeId::Product(product_id);
        self.ensure_origin(origin)?;
        let mut excluded: HashSet<u64> = HashSet::new();
        excluded.insert(product_id);
        proof {
            assert(excluded@ =~= Set::empty().insert(product_id));
        }
        self.search(origin, &excluded, config, multiply)
    }

    /// Explores, scores, selects and ranks.
    fn search<F: Fn(u64, u64) -> u64>(&self, origin: NodeId, excluded: &HashSet<u64>, config: RecommendationConfig, multiply: F) -> (r: Result<Vec<Recommendation>, ConectaStoreError>)
        requires
            self.wf(),
            self@.contains(origin),
            forall|a: u64, b: u64| call_requires(multiply, (a, b)),
        ensures
            match r {
                Ok(recs) => request_error(self@, origin, config) is None
                    && answers_request(self@, origin, excluded@, config, multiply, recs@.map_values(|x: Recommendation| x@))
                    && search_steps(self@, origin, config.max_depth).len() <= usize::MAX,
                Err(e) => request_error(self@, origin, config) == Some(e),
            },
    {
        Self::validate_config(config)?;
        let steps = explore(self.graph, origin, config.max_depth);
        let scores = score_steps(&steps, config.distance_decay_bits, &multiply);
        let (best, ids) = self.select_candidates(&steps, &scores, excluded);
        let (mut ranked, ranked_scores) = rank(&ids, &best, &scores);
        let ghost all = ranked@;
        let ghost candidates = best@.map_values(|i: usize| scores@[i as int]);
        proof {
            let spec_best = best_steps(self@, excluded@, steps@, scores@, steps@.len());
            assert(candidates =~= spec_best.map_values(|i: nat| scores@[i as int]));
        }
        proof {
            assert forall|q: int| 0 <= q < all.len() implies ranked_scores@[q] == candidates[#[trigger] all[q]] by {
                assert(all.contains(all[q]));
            }
            lemma_top_ranked(all, ranked_scores@, candidates, config.limit as nat);
        }
        ranked.truncate(config.limit);
        proof {
            let m = if (config.limit as nat) < all.len() { config.limit as int } else { all.len() as int };
            assert(ranked@ =~= all.take(m));
        }
        let mut results: Vec<Recommendation> = Vec::new();
        let mut i: usize = 0;
        while i < ranked.len()
            invariant
                self.wf(),
                self@.contains(origin),
                scores@.len() == steps@.len(),
                forall|id: u64| best@.contains_key(id) ==> best@[id] < steps@.len(),
                same_choice(best@, best_steps(self@, excluded@, steps@, scores@, steps@.len())),
                forall|q: int| 0 <= q < ranked@.len() ==> best@.contains_key(#[trigger] ranked@[q]),
                i <= ranked@.len(),
                results@.len() == i,
                forall|q: int| 0 <= q < i ==> (#[trigger] results@[q])@ == describe_candidate(self@, steps@, scores@, ranked@[q], best@[ranked@[q]] as nat),
            decreases ranked@.len() - i,
        {
            let id = ranked[i];
            let b = match best.get(&id) {
                Some(b) => *b,
                None => {
                    proof {
                        assert(best@.contains_key(ranked@[i as int]));
                    }
                    0
                },
            };
            proof {
                lemma_best_is_offered(self@, excluded@, steps@, scores@, steps@.len(), id);
            }
            let rec = self.describe(&steps, &scores, id, b);
            results.push(rec);
            i = i + 1;
        }
        proof {
            let views = results@.map_values(|x: Recommendation| x@);
            assert(views.map_values(|r: RecommendationView| r.product_id) =~= ranked@);
            assert(answers(self@, steps@, scores@, excluded@, config.limit as nat, views));
            assert(scores_follow(multiply, steps@, config.distance_decay_bits, scores@));
        }
        Ok(results)
    }

    /// Fails with `NodeNotFound` unless the origin is present.
    fn ensure_origin(&self, id: NodeId) -> (r: Result<(), ConectaStoreError>)
        requires
            self.wf(),
        ensures
            r is Ok <==> self@.contains(id),
            r matches Err(e) ==> e == ConectaStoreError::NodeNotFound(id),
    {
        match self.graph.node(id) {
            Ok(_) => Ok(()),
            Err(e) => Err(e),
        }
    }

    /// Refuses a zero limit, a zero depth, and a decay outside `0.0..=1.0`.
    fn validate_config(config: RecommendationConfig) -> (r: Result<(), ConectaStoreError>)
        ensures
            match r {
                Ok(()) => config.limit != 0 && config.max_depth != 0 && is_unit_interval(config.distance_decay_bits),
                Err(e) => if config.limit == 0 {
                    e == ConectaStoreError::InvalidLimit
                } else if config.max_depth == 0 {
                    e == ConectaStoreError::InvalidDepth
                } else {
                    !is_unit_interval(config.distance_decay_bits) && e == ConectaStoreError::InvalidWeight(config.distance_decay_bits)
                },
            },
    {
        if config.limit == 0 {
            return Err(ConectaStoreError::InvalidLimit);
        }
        if config.max_depth == 0 {
            return Err(ConectaStoreError::InvalidDepth);
        }
        if !in_unit_interval(config.distance_decay_bits) {
            return Err(ConectaStoreError::InvalidWeight(config.distance_decay_bits));
        }
        Ok(())
    }

    /// The ids of the products the client's purchase relations reach.
    fn purchased_products(&self, client: NodeId) -> (r: Result<HashSet<u64>, ConectaStoreError>)
        requires
            self.wf(),
        ensures
            match r {
                Ok(set) => self@.contains(client) && set@ == purchased(self@, client),
                Err(e) => !self@.contains(client) && e == ConectaStoreError::NodeNotFound(client),
            },
    {
        let edges = self.graph.outgoing(client)?;
        let mut set: HashSet<u64> = HashSet::new();
        let mut j: usize = 0;
        while j < edges.len()
            invariant
                edges@ == self@.outgoing[client],
                j <= edges@.len(),
                forall|id: u64| #[trigger] set@.contains(id) <==> exists|i: int| 0 <= i < j
                    && (#[trigger] edges@[i]).relation == RelationType::Purchase
                    && edges@[i].destination == NodeId::Product(id),
            decreases edges@.len() - j,
        {
            let e = edges[j];
            if e.relation == RelationType::Purchase {
                if let NodeId::Product(id) = e.destination {
                    set.insert(id);
                }
            }
            proof {
                assert forall|id: u64| #[trigger] set@.contains(id) <==> exists|i: int| 0 <= i < j + 1
                    && (#[trigger] edges@[i]).relation == RelationType::Purchase
                    && edges@[i].destination == NodeId::Product(id) by {
                    if exists|i: int| 0 <= i < j + 1 && (#[trigger] edges@[i]).relation == RelationType::Purchase
                        && edges@[i].destination == NodeId::Product(id) {
                        let i = choose|i: int| 0 <= i < j + 1 && (#[trigger] edges@[i]).relation == RelationType::Purchase
                            && edges@[i].destination == NodeId::Product(id);
                        if i < j {
                        } else {
                            assert(edges@[j as int] == e);
                        }
                    }
                }
            }
            j = j + 1;
        }
        proof {
            assert(set@ =~= purchased(self@, client));
        }
        Ok(set)
    }

    /// Whether the product may be recommended: its `available` flag.
    fn product_is_available(&self, id: u64) -> (r: Result<bool, ConectaStoreError>)
        requires
            self.wf(),
        ensures
            match r {
                Ok(a) => self@.contains(NodeId::Product(id)) && a == is_available(self@, id),
                Err(e) => !self@.contains(NodeId::Product(id)) && e == ConectaStoreError::NodeNotFound(NodeId::Product(id)),
            },
    {
        match self.graph.node(NodeId::Product(id))? {
            Node::Product(product) => Ok(product.available),
            _ => Ok(false),
        }
    }

    /// For every candidate, the step that gives its score (see `best_steps`),
    /// and the candidates in the order of their first offer.
    fn select_candidates(&self, steps: &Vec<Step>, scores: &Vec<u64>, excluded: &HashSet<u64>) -> (r: (HashMap<u64, usize>, Vec<u64>))
        requires
            self.wf(),
            scores@.len() == steps@.len(),
            forall|i: int| 0 <= i < steps@.len() ==> self@.contains((#[trigger] steps@[i]).edge.destination),
        ensures
            same_choice(r.0@, best_steps(self@, excluded@, steps@, scores@, steps@.len())),
            r.1@.no_duplicates(),
            forall|id: u64| r.1@.contains(id) <==> r.0@.contains_key(id),
            forall|id: u64| r.0@.contains_key(id) ==> r.0@[id] < steps@.len(),
    {
        let mut best: HashMap<u64, usize> = HashMap::new();
        let mut ids: Vec<u64> = Vec::new();
        let mut i: usize = 0;
        proof {
            assert(best@.dom() =~= best_steps(self@, excluded@, steps@, scores@, 0).dom());
        }
        while i < steps.len()
            invariant
                self.wf(),
                scores@.len() == steps@.len(),
                forall|k: int| 0 <= k < steps@.len() ==> self@.contains((#[trigger] steps@[k]).edge.destination),
                i <= steps@.len(),
                same_choice(best@, best_steps(self@, excluded@, steps@, scores@, i as nat)),
                ids@.no_duplicates(),
                forall|id: u64| ids@.contains(id) <==> best@.contains_key(id),
                forall|id: u64| best@.contains_key(id) ==> best@[id] < i,
            decreases steps@.len() - i,
        {
            let step = steps[i];
            let ghost prev = best@;
            if let NodeId::Product(id) = step.edge.destination {
                if !excluded.contains(&id) {
                    let available = match self.product_is_available(id) {
                        Ok(a) => a,
                        Err(_) => {
                            proof {
                                assert(self@.contains(steps@[i as int].edge.destination));
                            }
                            false
                        },
                    };
                    if available {
                        match best.get(&id) {
                            None => {
                                best.insert(id, i);
                                proof {
                                    assert(!ids@.contains(id));
                                }
                                let ghost old_ids = ids@;
                                ids.push(id);
                                proof {
                                    assert forall|x: u64| ids@.contains(x) <==> best@.contains_key(x) by {
                                        if ids@.contains(x) && x != id {
                                            let k = choose|k: int| 0 <= k < ids@.len() && ids@[k] == x;
                                            assert(old_ids[k] == x);
                                        }
                                        if old_ids.contains(x) {
                                            let k = choose|k: int| 0 <= k < old_ids.len() && old_ids[k] == x;
                                            assert(ids@[k] == x);
                                        }
                                        if x == id {
                                            assert(ids@[ids@.len() - 1] == id);
                                        }
                                    }
                                }
                            },
                            Some(current) => {
                                let current = *current;
                                if less_than(scores[current], scores[i]) {
                                    best.insert(id, i);
                                }
                            },
                        }
                    }
                }
            }
            i = i + 1;
        }
        (best, ids)
    }
    /// The recommendation of candidate `id` scored by step `best`.
    fn describe(&self, steps: &Vec<Step>, scores: &Vec<u64>, id: u64, best: usize) -> (r: Recommendation)
        requires
            self.wf(),
            best < steps@.len(),
            scores@.len() == steps@.len(),
            is_available(self@, id),
        ensures
            r@ == describe_candidate(self@, steps@, scores@, id, best as nat),
    {
        let name = match self.graph.node(NodeId::Product(id)) {
            Ok(Node::Product(product)) => product.name.clone(),
            _ => {
                proof {
                    assert(false);
                }
                String::new()
            },
        };
        let category = self.category_name(id);
        let step = steps[best];
        Recommendation {
            product_id: id,
            name,
            category,
            score_bits: scores[best],
            reason: step.edge.relation.description().to_owned(),
        }
    }

    /// The name of the product's category, or `"Sem categoria"`.
    fn category_name(&self, product_id: u64) -> (r: String)
        requires
            self.wf(),
            self@.contains(NodeId::Product(product_id)),
        ensures
            r@ == category_of(self@, self@.outgoing[NodeId::Product(product_id)]),
    {
        let ghost g = self@;
        let edges = match self.graph.outgoing(NodeId::Product(product_id)) {
            Ok(edges) => edges,
            Err(_) => {
                proof {
                    assert(false);
                }
                return String::new();
            },
        };
        let mut j: usize = 0;
        proof {
            assert(edges@.skip(0) =~= edges@);
        }
        while j < edges.len()
            invariant
                self.wf(),
                g == self@,
                self@.contains(NodeId::Product(product_id)),
                edges@ == g.outgoing[NodeId::Product(product_id)],
                j <= edges@.len(),
                category_of(g, edges@) == category_of(g, edges@.skip(j as int)),
            decreases edges@.len() - j,
        {
            let e = edges[j];
            proof {
                assert(g.valid_out_entry(NodeId::Product(product_id), j as int));
                assert(edges@.skip(j as int)[0] == e);
                assert(edges@.skip(j as int).skip(1) =~= edges@.skip(j + 1));
            }
            if e.relation == RelationType::BelongsToCategory {
                match self.graph.node(e.destination) {
                    Ok(Node::Category(category)) => {
                        return category.name.clone();
                    },
                    Ok(_) => {},
                    Err(_) => {
                        proof {
                            assert(false);
                        }
                    },
                }
            }
            j = j + 1;
        }
        "Sem categoria".to_owned()
    }
}

/// A candidate of `best_steps` is offered by its best step, which is an
/// available product outside `excluded`.
pub proof fn lemma_best_is_offered(g: GraphView, excluded: Set<u64>, steps: Seq<Step>, scores: Seq<u64>, n: nat, id: u64)
    requires
        n <= steps.len(),
        best_steps(g, excluded, steps, scores, n).contains_key(id),
    ensures
        best_steps(g, excluded, steps, scores, n)[id] < n,
        offered(g, excluded, steps[best_steps(g, excluded, steps, scores, n)[id] as int]) == Some(id),
        is_available(g, id),
        !excluded.contains(id),
    decreases n,
{
    let m = best_steps(g, excluded, steps, scores, (n - 1) as nat);
    let i = n - 1;
    let b = best_steps(g, excluded, steps, scores, n);
    match offered(g, excluded, steps[i]) {
        Some(k) => {
            if k == id && (!m.contains_key(id) || ieee_gt(scores[i], scores[m[id] as int])) {
                assert(b[id] == i);
            } else {
                assert(b[id] == m[id]);
                lemma_best_is_offered(g, excluded, steps, scores, (n - 1) as nat, id);
            }
        },
        None => {
            lemma_best_is_offered(g, excluded, steps, scores, (n - 1) as nat, id);
        },
    }
}

/// A product offered by one of the first `n` steps is a candidate among them.
pub proof fn lemma_offered_is_candidate(g: GraphView, excluded: Set<u64>, steps: Seq<Step>, scores: Seq<u64>, n: nat, i: int, id: u64)
    requires
        0 <= i < n <= steps.len(),
        offered(g, excluded, steps[i]) == Some(id),
    ensures
        best_steps(g, excluded, steps, scores, n).contains_key(id),
    decreases n,
{
    if i < n - 1 {
        lemma_offered_is_candidate(g, excluded, steps, scores, (n - 1) as nat, i, id);
    }
}

/// No step among the first `n` that offers a candidate scores above the step
/// kept for it.
pub proof fn lemma_best_step_is_greatest(g: GraphView, excluded: Set<u64>, steps: Seq<Step>, scores: Seq<u64>, n: nat, i: int, id: u64)
    requires
        0 <= i < n <= steps.len(),
        offered(g, excluded, steps[i]) == Some(id),
    ensures
        best_steps(g, excluded, steps, scores, n).contains_key(id),
        !ieee_gt(scores[i], scores[best_steps(g, excluded, steps, scores, n)[id] as int]),
    decreases n,
{
    lemma_offered_is_candidate(g, excluded, steps, scores, n, i, id);
    let last = n - 1;
    let m = best_steps(g, excluded, steps, scores, last as nat);
    let b = best_steps(g, excluded, steps, scores, n);
    lemma_order_key(scores[i]);
    if i < last {
        lemma_best_step_is_greatest(g, excluded, steps, scores, last as nat, i, id);
        if b[id] != m[id] {
            assert(b[id] == last);
            lemma_not_gt_then_gt(scores[i], scores[m[id] as int], scores[last]);
        }
    } else if m.contains_key(id) {
        if b[id] != last {
            assert(!ieee_gt(scores[last], scores[m[id] as int]));
        }
    }
}

/// The candidates do not depend on the scores: only which step is kept for
/// each of them does.
pub proof fn lemma_candidates_ignore_scores(g: GraphView, excluded: Set<u64>, steps: Seq<Step>, a: Seq<u64>, b: Seq<u64>, n: nat)
    requires
        n <= steps.len(),
    ensures
        best_steps(g, excluded, steps, a, n).dom() == best_steps(g, excluded, steps, b, n).dom(),
    decreases n,
{
    if n > 0 {
        lemma_candidates_ignore_scores(g, excluded, steps, a, b, (n - 1) as nat);
        let ma = best_steps(g, excluded, steps, a, (n - 1) as nat);
        let mb = best_steps(g, excluded, steps, b, (n - 1) as nat);
        match offered(g, excluded, steps[n - 1]) {
            Some(id) => {
                assert(best_steps(g, excluded, steps, a, n).dom() =~= ma.dom().insert(id));
                assert(best_steps(g, excluded, steps, b, n).dom() =~= mb.dom().insert(id));
            },
            None => {},
        }
    }
}

/// `multiply` gives one result for each pair of arguments.
pub open spec fn deterministic<F: Fn(u64, u64) -> u64>(multiply: F) -> bool {
    forall|a: u64, b: u64, x: u64, y: u64|
        #[trigger] call_ensures(multiply, (a, b), x) && #[trigger] call_ensures(multiply, (a, b), y) ==> x == y
}

/// With a deterministic `multiply`, the scores of the steps are unique.
pub proof fn lemma_scores_unique<F: Fn(u64, u64) -> u64>(multiply: F, steps: Seq<Step>, decay: u64, a: Seq<u64>, b: Seq<u64>, n: nat)
    requires
        deterministic(multiply),
        scores_follow(multiply, steps, decay, a),
        scores_follow(multiply, steps, decay, b),
        forall|i: int| 0 <= i < steps.len() ==> via_before((#[trigger] steps[i]).via, i),
        n <= steps.len(),
    ensures
        forall|k: int| 0 <= k < n ==> a[k] == b[k],
    decreases n,
{
    if n > 0 {
        lemma_scores_unique(multiply, steps, decay, a, b, (n - 1) as nat);
        let k = n - 1;
        assert(via_before(steps[k].via, k));
        assert(base_score(steps, a, k) == base_score(steps, b, k));
        let base = base_score(steps, a, k);
        let step = steps[k];
        assert(scored_by(multiply, base, step, decay, a[k]));
        assert(scored_by(multiply, base, step, decay, b[k]));
        let (xa, ya) = choose|x: u64, y: u64|
            call_ensures(multiply, (base, step.edge.weight_bits), x)
            && call_ensures(multiply, (x, factor_bits(step.edge.relation)), y)
            && call_ensures(multiply, (y, decay), a[k]);
        let (xb, yb) = choose|x: u64, y: u64|
            call_ensures(multiply, (base, step.edge.weight_bits), x)
            && call_ensures(multiply, (x, factor_bits(step.edge.relation)), y)
            && call_ensures(multiply, (y, decay), b[k]);
        assert(xa == xb);
        assert(ya == yb);
    }
}

/// Two lists that are the top candidates for two limits agree up to the
/// shorter one.
proof fn lemma_top_prefix_upto(l1: Seq<u64>, l2: Seq<u64>, scores: Map<u64, u64>, lim1: nat, lim2: nat, i: int)
    requires
        is_top_ranked(l1, scores, lim1),
        is_top_ranked(l2, scores, lim2),
        lim1 <= lim2,
        0 <= i <= l1.len(),
    ensures
        l1.len() <= l2.len(),
        forall|k: int| 0 <= k < i ==> l1[k] == l2[k],
    decreases i,
{
    if i > 0 {
        lemma_top_prefix_upto(l1, l2, scores, lim1, lim2, i - 1);
        let p = i - 1;
        let x = l1[p];
        let y = l2[p];
        if x != y {
            assert(scores.contains_key(x) && scores.contains_key(y));
            lemma_ranks_total(x, scores[x], y, scores[y]);
            // y is not before p in l1, where the lists agree, so x ranks before y
            if l1.contains(y) {
                let k = choose|k: int| 0 <= k < l1.len() && l1[k] == y;
                if k < p {
                    assert(l2[k] == y);
                    assert(ranks_before(l2[k], scores[l2[k]], l2[p], scores[l2[p]]));
                }
                assert(k > p);
                assert(ranks_before(l1[p], scores[l1[p]], l1[k], scores[l1[k]]));
            } else {
                assert(ranks_before(l1[p], scores[l1[p]], y, scores[y]));
            }
            // and x is not before p in l2, so y ranks before x
            if l2.contains(x) {
                let j = choose|j: int| 0 <= j < l2.len() && l2[j] == x;
                if j < p {
                    assert(l1[j] == x);
                    assert(ranks_before(l1[j], scores[l1[j]], l1[p], scores[l1[p]]));
                }
                assert(j > p);
                assert(ranks_before(l2[p], scores[l2[p]], l2[j], scores[l2[j]]));
            } else {
                assert(ranks_before(l2[p], scores[l2[p]], x, scores[x]));
            }
        }
    }
}

/// Two lists that are the top candidates for two limits: the one for the
/// smaller limit is a prefix of the other.
pub proof fn lemma_top_prefix(l1: Seq<u64>, l2: Seq<u64>, scores: Map<u64, u64>, lim1: nat, lim2: nat)
    requires
        is_top_ranked(l1, scores, lim1),
        is_top_ranked(l2, scores, lim2),
        lim1 <= lim2,
    ensures
        l1.len() <= l2.len(),
        l1 == l2.take(l1.len() as int),
{
    lemma_top_prefix_upto(l1, l2, scores, lim1, lim2, l1.len() as int);
    assert(l1 =~= l2.take(l1.len() as int));
}

/// Two distinct candidates are always ranked one way or the other.
pub proof fn lemma_ranks_total(a: u64, sa: u64, b: u64, sb: u64)
    requires
        a != b,
    ensures
        ranks_before(a, sa, b, sb) || ranks_before(b, sb, a, sa),
        !(ranks_before(a, sa, b, sb) && ranks_before(b, sb, a, sa)),
{
}

/// The ranking is transitive.
pub proof fn lemma_ranks_transitive(a: u64, sa: u64, b: u64, sb: u64, c: u64, sc: u64)
    requires
        ranks_before(a, sa, b, sb),
        ranks_before(b, sb, c, sc),
    ensures
        ranks_before(a, sa, c, sc),
{
}

/// `a` comes before `b` in the ranking.
fn ranks_before_exec(a: u64, a_score: u64, b: u64, b_score: u64) -> (r: bool)
    ensures
        r == ranks_before(a, a_score, b, b_score),
{
    let ka = total_order_key(a_score);
    let kb = total_order_key(b_score);
    ka > kb || (ka == kb && a < b)
}

/// The candidates sorted in ranking order, with their scores.
fn rank(ids: &Vec<u64>, best: &HashMap<u64, usize>, scores: &Vec<u64>) -> (r: (Vec<u64>, Vec<u64>))
    requires
        ids@.no_duplicates(),
        forall|id: u64| ids@.contains(id) <==> best@.contains_key(id),
        forall|id: u64| best@.contains_key(id) ==> best@[id] < scores@.len(),
    ensures
        r.0@.len() == ids@.len(),
        r.1@.len() == ids@.len(),
        r.0@.no_duplicates(),
        forall|id: u64| r.0@.contains(id) <==> best@.contains_key(id),
        forall|q: int| 0 <= q < r.0@.len() ==> r.1@[q] == scores@[best@[#[trigger] r.0@[q]] as int],
        forall|i: int, j: int| 0 <= i < j < r.0@.len() ==> ranks_before(#[trigger] r.0@[i], r.1@[i], #[trigger] r.0@[j], r.1@[j]),
{
    let mut sorted_ids: Vec<u64> = Vec::new();
    let mut sorted_scores: Vec<u64> = Vec::new();
    let mut k: usize = 0;
    while k < ids.len()
        invariant
            ids@.no_duplicates(),
            forall|id: u64| ids@.contains(id) <==> best@.contains_key(id),
            forall|id: u64| best@.contains_key(id) ==> best@[id] < scores@.len(),
            k <= ids@.len(),
            sorted_ids@.len() == k,
            sorted_scores@.len() == k,
            sorted_ids@.no_duplicates(),
            forall|id: u64| sorted_ids@.contains(id) <==> ids@.take(k as int).contains(id),
            forall|q: int| 0 <= q < k ==> sorted_scores@[q] == scores@[best@[#[trigger] sorted_ids@[q]] as int],
            forall|i: int, j: int| 0 <= i < j < k ==> ranks_before(#[trigger] sorted_ids@[i], sorted_scores@[i], #[trigger] sorted_ids@[j], sorted_scores@[j]),
        decreases ids@.len() - k,
    {
        let id = ids[k];
        proof {
            assert(ids@.contains(id));
        }
        let score = match best.get(&id) {
            Some(i) => scores[*i],
            None => {
                proof { assert(false); }
                0
            },
        };
        proof {
            assert(!ids@.take(k as int).contains(id)) by {
                if ids@.take(k as int).contains(id) {
                    let q = choose|q: int| 0 <= q < k && ids@.take(k as int)[q] == id;
                    assert(ids@[q] == ids@[k as int]);
                }
            }
        }
        let mut p: usize = 0;
        while p < sorted_ids.len() && ranks_before_exec(sorted_ids[p], sorted_scores[p], id, score)
            invariant
                p <= sorted_ids@.len(),
                sorted_ids@.len() == sorted_scores@.len(),
                forall|q: int| 0 <= q < p ==> ranks_before(#[trigger] sorted_ids@[q], sorted_scores@[q], id, score),
            decreases sorted_ids@.len() - p,
        {
            p = p + 1;
        }
        let ghost old_ids = sorted_ids@;
        let ghost old_scores = sorted_scores@;
        proof {
            assert(!old_ids.contains(id));
            assert forall|q: int| p <= q < old_ids.len() implies ranks_before(id, score, #[trigger] old_ids[q], old_scores[q]) by {
                assert(old_ids[p as int] != id);
                lemma_ranks_total(old_ids[p as int], old_scores[p as int], id, score);
                if q > p {
                    assert(ranks_before(old_ids[p as int], old_scores[p as int], old_ids[q], old_scores[q]));
                    lemma_ranks_transitive(id, score, old_ids[p as int], old_scores[p as int], old_ids[q], old_scores[q]);
                }
            }
        }
        sorted_ids.insert(p, id);
        sorted_scores.insert(p, score);
        proof {
            assert forall|i: int, j: int| 0 <= i < j < k + 1 implies ranks_before(#[trigger] sorted_ids@[i], sorted_scores@[i], #[trigger] sorted_ids@[j], sorted_scores@[j]) by {
                if j < p {
                    assert(sorted_ids@[i] == old_ids[i] && sorted_ids@[j] == old_ids[j]);
                } else if j == p {
                    assert(sorted_ids@[i] == old_ids[i]);
                } else if i < p {
                    assert(sorted_ids@[i] == old_ids[i] && sorted_ids@[j] == old_ids[j - 1]);
                    lemma_ranks_transitive(old_ids[i], old_scores[i], id, score, old_ids[j - 1], old_scores[j - 1]);
                } else if i == p {
                    assert(sorted_ids@[j] == old_ids[j - 1]);
                } else {
                    assert(sorted_ids@[i] == old_ids[i - 1] && sorted_ids@[j] == old_ids[j - 1]);
                }
            }
            assert forall|q: int| 0 <= q < k + 1 implies sorted_scores@[q] == scores@[best@[#[trigger] sorted_ids@[q]] as int] by {
                if q < p {
                    assert(sorted_ids@[q] == old_ids[q]);
                } else if q > p {
                    assert(sorted_ids@[q] == old_ids[q - 1]);
                }
            }
            assert forall|x: u64| sorted_ids@.contains(x) <==> ids@.take(k + 1).contains(x) by {
                let t0 = ids@.take(k as int);
                let t1 = ids@.take(k + 1);
                assert(t1 =~= t0.push(id));
                if t1.contains(x) && x != id {
                    let q = choose|q: int| 0 <= q < t1.len() && t1[q] == x;
                    assert(t0[q] == x);
                }
                if t0.contains(x) {
                    let q = choose|q: int| 0 <= q < t0.len() && t0[q] == x;
                    assert(t1[q] == x);
                }
                if x == id {
                    assert(t1[k as int] == id);
                }
                if sorted_ids@.contains(x) && x != id {
                    let q = choose|q: int| 0 <= q < sorted_ids@.len() && sorted_ids@[q] == x;
                    if q < p {
                        assert(old_ids[q] == x);
                    } else {
                        assert(old_ids[q - 1] == x);
                    }
                }
                if old_ids.contains(x) {
                    let q = choose|q: int| 0 <= q < old_ids.len() && old_ids[q] == x;
                    if q < p {
                        assert(sorted_ids@[q] == x);
                    } else {
                        assert(sorted_ids@[q + 1] == x);
                    }
                }
                if x == id {
                    assert(sorted_ids@[p as int] == id);
                }
            }
            assert(sorted_ids@.no_duplicates()) by {
                assert forall|i: int, j: int| 0 <= i < j < sorted_ids@.len() implies sorted_ids@[i] != sorted_ids@[j] by {
                    lemma_ranks_total(sorted_ids@[i], sorted_scores@[i], sorted_ids@[j], sorted_scores@[j]);
                }
            }
        }
        k = k + 1;
    }
    proof {
        assert(ids@.take(ids@.len() as int) =~= ids@);
    }
    (sorted_ids, sorted_scores)
}

/// The first `limit` entries of a ranked list of all candidates are the top
/// candidates.
pub proof fn lemma_top_ranked(all: Seq<u64>, all_scores: Seq<u64>, candidates: Map<u64, u64>, limit: nat)
    requires
        all.no_duplicates(),
        all_scores.len() == all.len(),
        forall|id: u64| all.contains(id) <==> candidates.contains_key(id),
        forall|q: int| 0 <= q < all.len() ==> all_scores[q] == candidates[#[trigger] all[q]],
        forall|i: int, j: int| 0 <= i < j < all.len() ==> ranks_before(#[trigger] all[i], all_scores[i], #[trigger] all[j], all_scores[j]),
    ensures
        is_top_ranked(all.take(if limit < all.len() { limit as int } else { all.len() as int }), candidates, limit),
{
    let m = if limit < all.len() { limit as int } else { all.len() as int };
    let top = all.take(m);
    assert(candidates.dom() =~= all.to_set());
    all.unique_seq_to_set();
    assert forall|i: int| 0 <= i < top.len() implies candidates.contains_key(#[trigger] top[i]) by {
        assert(all.contains(all[i]));
    }
    assert forall|i: int, j: int| 0 <= i < j < top.len() implies ranks_before(#[trigger] top[i], candidates[top[i]], #[trigger] top[j], candidates[top[j]]) by {
        assert(top[i] == all[i] && top[j] == all[j]);
        assert(ranks_before(all[i], all_scores[i], all[j], all_scores[j]));
    }
    assert forall|c: u64| #[trigger] candidates.contains_key(c) && !top.contains(c) implies
        forall|i: int| 0 <= i < top.len() ==> ranks_before(#[trigger] top[i], candidates[top[i]], c, candidates[c]) by {
        assert(all.contains(c));
        let q = choose|q: int| 0 <= q < all.len() && all[q] == c;
        if q < m {
            assert(top[q] == c);
        }
        assert forall|i: int| 0 <= i < top.len() implies ranks_before(#[trigger] top[i], candidates[top[i]], c, candidates[c]) by {
            assert(top[i] == all[i]);
            assert(ranks_before(all[i], all_scores[i], all[q], all_scores[q]));
        }
    }
}

/// The score of every step, in order.
fn score_steps<F: Fn(u64, u64) -> u64>(steps: &Vec<Step>, decay_bits: u64, multiply: &F) -> (scores: Vec<u64>)
    requires
        forall|i: int| 0 <= i < steps@.len() ==> via_before((#[trigger] steps@[i]).via, i),
        forall|a: u64, b: u64| call_requires(*multiply, (a, b)),
    ensures
        scores_follow(*multiply, steps@, decay_bits, scores@),
{
    let mut scores: Vec<u64> = Vec::new();
    let mut i: usize = 0;
    while i < steps.len()
        invariant
            forall|k: int| 0 <= k < steps@.len() ==> via_before((#[trigger] steps@[k]).via, k),
            forall|a: u64, b: u64| call_requires(*multiply, (a, b)),
            i <= steps@.len(),
            scores@.len() == i,
            forall|k: int| 0 <= k < i ==> scored_by(*multiply, base_score(steps@, scores@, k), #[trigger] steps@[k], decay_bits, scores@[k]),
        decreases steps@.len() - i,
    {
        let step = steps[i];
        let base = match step.via {
            Some(j) => {
                assert(via_before(steps@[i as int].via, i as int));
                scores[j]
            },
            None => ONE_BITS,
        };
        let x = multiply(base, step.edge.weight_bits);
        let y = multiply(x, step.edge.relation.score_factor());
        let score = multiply(y, decay_bits);
        let ghost before = scores@;
        scores.push(score);
        proof {
            assert(scored_by(*multiply, base, step, decay_bits, score));
            assert forall|k: int| 0 <= k <= i implies scored_by(*multiply, base_score(steps@, scores@, k), #[trigger] steps@[k], decay_bits, scores@[k]) by {
                if k < i {
                    assert(via_before(steps@[k].via, k));
                    assert(base_score(steps@, scores@, k) == base_score(steps@, before, k));
                    assert(scores@[k] == before[k]);
                }
            }
        }
        i = i + 1;
    }
    scores
}

} // verus!
