//! A deterministic synthetic store and a simple time measurement over it.

use std::time::{Duration, Instant};

use vstd::prelude::*;

use crate::binary64::ONE_BITS;
use crate::error::ConectaStoreError;
use crate::graph::{
    find_weight, lemma_connect_new_key, lemma_insert_node_edge_total, lemma_insert_node_well_formed,
    matches_key, GraphView,
};
use crate::models::{Edge, NodeId, NodeView, RelationType};
use crate::recommendation::{
    answers_request, purchased, RecommendationConfig, RecommendationEngine, RecommendationView, DEFAULT_DECAY_BITS,
};
use crate::repository::StoreRepository;
use crate::text::{decimal, numbered};

verus! {

/// Bit pattern of `10.0`, the price of every synthetic product.
pub const PRICE_BITS: u64 = 0x4024_0000_0000_0000;

/// Bit pattern of `0.8`, the weight of the similarity between consecutive products.
pub const SIMILARITY_BITS: u64 = 0x3FE9_9999_9999_999A;

/// Bit pattern of `0.7`, the weight of a client's interest.
pub const INTEREST_BITS: u64 = 0x3FE6_6666_6666_6666;

/// Bit pattern of `0.9`, the weight of a client's rating.
pub const RATING_BITS: u64 = 0x3FEC_CCCC_CCCC_CCCD;

/// The number of clients of a synthetic store: a tenth of the products, at least ten.
pub open spec fn client_total(products: nat) -> nat {
    if products / 10 > 10 { products / 10 } else { 10 }
}

/// The number of categories: a hundredth of the products, at least one.
pub open spec fn category_total(products: nat) -> nat {
    if products / 100 > 1 { products / 100 } else { 1 }
}

/// The category of product `p`: categories are dealt out in turn.
pub open spec fn category_for(p: nat, categories: nat) -> nat {
    ((p - 1) as nat % categories + 1) as nat
}

/// The product that client `k` reaches with multiplier `factor`.
pub open spec fn pick(k: nat, factor: nat, products: nat) -> nat {
    (k * factor) % products + 1
}

/// What each vertex of a synthetic store holds.
pub open spec fn synthetic_node(id: NodeId) -> NodeView {
    match id {
        NodeId::Category(c) => NodeView::Category { id: c, name: "Categoria "@ + decimal(c as nat) },
        NodeId::Product(p) => NodeView::Product {
            id: p,
            name: "Produto "@ + decimal(p as nat),
            price_bits: PRICE_BITS,
            available: true,
        },
        NodeId::Client(k) => NodeView::Client { id: k, name: "Cliente "@ + decimal(k as nat) },
    }
}

/// The relations of product `p` once products up to `last` are registered:
/// its category, then the similarity to the next product if that exists.
pub open spec fn product_edges(p: nat, last: nat, categories: nat) -> Seq<Edge> {
    let belongs = Edge {
        destination: NodeId::Category(category_for(p, categories) as u64),
        relation: RelationType::BelongsToCategory,
        weight_bits: ONE_BITS,
    };
    if p < last {
        seq![belongs, Edge { destination: NodeId::Product((p + 1) as u64), relation: RelationType::Similarity, weight_bits: SIMILARITY_BITS }]
    } else {
        seq![belongs]
    }
}

/// The relations of client `k`: a purchase, an interest and a rating of three
/// products picked from its number (none when there are no products).
pub open spec fn client_edges(k: nat, products: nat) -> Seq<Edge> {
    if products == 0 {
        seq![]
    } else {
        seq![
            Edge { destination: NodeId::Product(pick(k, 7, products) as u64), relation: RelationType::Purchase, weight_bits: ONE_BITS },
            Edge { destination: NodeId::Product(pick(k, 13, products) as u64), relation: RelationType::Interest, weight_bits: INTEREST_BITS },
            Edge { destination: NodeId::Product(pick(k, 17, products) as u64), relation: RelationType::Rating, weight_bits: RATING_BITS },
        ]
    }
}

/// The reverse index of category `c` once products up to `p` are registered:
/// the category relations of its products, in product order.
pub open spec fn category_incoming(c: nat, p: nat, categories: nat) -> Seq<Edge>
    decreases p,
{
    if p == 0 {
        seq![]
    } else {
        let prev = category_incoming(c, (p - 1) as nat, categories);
        if category_for(p, categories) == c {
            prev.push(Edge { destination: NodeId::Product(p as u64), relation: RelationType::BelongsToCategory, weight_bits: ONE_BITS })
        } else {
            prev
        }
    }
}

/// The entries that client `k` adds to the reverse index of product `q`: its
/// purchase, interest and rating, in that order, where they reach `q`.
pub open spec fn client_hits(k: nat, q: nat, products: nat) -> Seq<Edge> {
    let client = NodeId::Client(k as u64);
    if products == 0 {
        seq![]
    } else {
        (if pick(k, 7, products) == q { seq![Edge { destination: client, relation: RelationType::Purchase, weight_bits: ONE_BITS }] } else { seq![] })
        + (if pick(k, 13, products) == q { seq![Edge { destination: client, relation: RelationType::Interest, weight_bits: INTEREST_BITS }] } else { seq![] })
        + (if pick(k, 17, products) == q { seq![Edge { destination: client, relation: RelationType::Rating, weight_bits: RATING_BITS }] } else { seq![] })
    }
}

/// The reverse index of product `q` once clients up to `k` are registered:
/// the similarity from the previous product, then the clients' relations in
/// client order.
pub open spec fn product_incoming(q: nat, k: nat, products: nat) -> Seq<Edge>
    decreases k,
{
    if k == 0 {
        if q > 1 {
            seq![Edge { destination: NodeId::Product((q - 1) as u64), relation: RelationType::Similarity, weight_bits: SIMILARITY_BITS }]
        } else {
            seq![]
        }
    } else {
        product_incoming(q, (k - 1) as nat, products) + client_hits(k, q, products)
    }
}

/// The vertex belongs to a store with `c` categories, `p` products and `k` clients.
pub open spec fn registered(id: NodeId, c: nat, p: nat, k: nat) -> bool {
    match id {
        NodeId::Category(x) => 1 <= x <= c,
        NodeId::Product(x) => 1 <= x <= p,
        NodeId::Client(x) => 1 <= x <= k,
    }
}

/// The vertex at position `i` of the insertion order of a store with `c`
/// categories and `p` products: categories first, then products, then clients,
/// each by increasing id.
pub open spec fn order_entry(i: int, c: nat, p: nat) -> NodeId {
    if i < c {
        NodeId::Category((i + 1) as u64)
    } else if i < c + p {
        NodeId::Product((i - c + 1) as u64)
    } else {
        NodeId::Client((i - c - p + 1) as u64)
    }
}

/// The insertion order of a store with `c` categories, `p` products and `k` clients.
pub open spec fn synthetic_order(c: nat, p: nat, k: nat) -> Seq<NodeId> {
    Seq::new(c + p + k, |i: int| order_entry(i, c, p))
}

/// `g` is the synthetic store of `products` products, built up to `c`
/// categories, `p` products and `k` clients.
pub open spec fn built(g: GraphView, products: nat, c: nat, p: nat, k: nat) -> bool {
    &&& g.well_formed()
    &&& forall|id: NodeId| #[trigger] g.contains(id) <==> registered(id, c, p, k)
    &&& forall|id: NodeId| #[trigger] g.contains(id) ==> g.nodes[id] == synthetic_node(id)
    &&& forall|id: NodeId| #[trigger] g.contains(id) ==> g.outgoing[id] == match id {
        NodeId::Category(_) => Seq::<Edge>::empty(),
        NodeId::Product(x) => product_edges(x as nat, p, category_total(products)),
        NodeId::Client(x) => client_edges(x as nat, products),
    }
    &&& forall|id: NodeId| #[trigger] g.contains(id) ==> g.incoming[id] == match id {
        NodeId::Category(x) => category_incoming(x as nat, p, category_total(products)),
        NodeId::Product(x) => product_incoming(x as nat, k, products),
        NodeId::Client(_) => Seq::<Edge>::empty(),
    }
    &&& g.order == synthetic_order(c, p, k)
    &&& g.order.len() == c + p + k
    &&& g.edge_total() == (if p > 0 { 2 * p - 1 } else { 0 }) + (if products > 0 { 3 * k } else { 0 })
}

/// `g` is the complete synthetic store of `products` products.
pub open spec fn is_synthetic(g: GraphView, products: nat) -> bool {
    built(g, products, category_total(products), products, client_total(products))
}

/// A point in time, as `std::time::Instant`.
#[verifier::external_type_specification]
#[verifier::external_body]
pub struct ExInstant(Instant);

/// Calls `std::time::Instant::now`. Nothing is claimed of the instant it
/// returns: it depends on the clock.
#[verifier::external_body]
fn now() -> Instant {
    Instant::now()
}

/// Calls `std::time::Instant::elapsed`. Nothing is claimed of the duration it
/// returns: it depends on the clock.
#[verifier::external_body]
fn elapsed(start: &Instant) -> Duration {
    start.elapsed()
}

/// The volumes of a synthetic store and the time taken to build it, to look up
/// a product and to recommend to a client.
#[derive(Debug)]
pub struct BenchmarkReport {
    pub clients: usize,
    pub products: usize,
    pub vertices: usize,
    pub edges: usize,
    pub build_time: Duration,
    pub query_time: Duration,
    pub recommendation_time: Duration,
    pub candidates_found: usize,
}

/// The configuration of the measured recommendation: depth 3, decay 0.85,
/// and a limit of one result per product (at least one).
pub open spec fn measured_config(products: nat) -> RecommendationConfig {
    RecommendationConfig {
        max_depth: 3,
        limit: if products > 1 { products as usize } else { 1 },
        distance_decay_bits: DEFAULT_DECAY_BITS,
    }
}

/// What measuring `products` products with `multiply` returns: a report with
/// the volumes of the synthetic store and the number of recommendations that
/// client 1 receives, or, when there is no product to look up, `NodeNotFound`.
pub open spec fn scenario_result<F: Fn(u64, u64) -> u64>(products: usize, multiply: F, r: Result<BenchmarkReport, ConectaStoreError>) -> bool {
    match r {
        Ok(report) => {
            &&& products > 0
            &&& report.clients == client_total(products as nat)
            &&& report.products == products
            &&& report.vertices == category_total(products as nat) + products + client_total(products as nat)
            &&& report.edges == 2 * products - 1 + 3 * client_total(products as nat)
            &&& exists|g: GraphView, recs: Seq<RecommendationView>| {
                &&& is_synthetic(g, products as nat)
                &&& answers_request(g, NodeId::Client(1), purchased(g, NodeId::Client(1)), measured_config(products as nat), multiply, recs)
                &&& report.candidates_found == recs.len()
            }
        },
        Err(e) => products == 0 && e == ConectaStoreError::NodeNotFound(NodeId::Product(1)),
    }
}

/// Builds the synthetic store, looks up its last product and recommends to
/// client 1, timing each stage. Fails when there is no product to look up.
pub fn measure_scenario<F: Fn(u64, u64) -> u64>(products: usize, multiply: F) -> (r: Result<BenchmarkReport, ConectaStoreError>)
    requires
        products <= usize::MAX / 32,
        forall|a: u64, b: u64| call_requires(multiply, (a, b)),
    ensures
        scenario_result(products, multiply, r),
{
    let build_start = now();
    let repository = generate_synthetic_graph(products)?;
    let build_time = elapsed(&build_start);

    let query_id: u64 = if products > 1 { products as u64 } else { 1 };
    let query_start = now();
    let _product = repository.product(query_id)?;
    let query_time = elapsed(&query_start);

    let recommendation_start = now();
    let engine = RecommendationEngine::new(repository.graph());
    let limit: usize = if products > 1 { products } else { 1 };
    let config = RecommendationConfig { max_depth: 3, limit, distance_decay_bits: DEFAULT_DECAY_BITS };
    proof {
        assert(registered(NodeId::Client(1), category_total(products as nat), products as nat, client_total(products as nat)));
    }
    let recommendations = engine.for_client(1, config, multiply)?;
    let recommendation_time = elapsed(&recommendation_start);

    let clients: usize = if products / 10 > 10 { products / 10 } else { 10 };
    let vertices = repository.graph().node_count();
    let edges = repository.graph().edge_count();
    let report = BenchmarkReport {
        clients,
        products,
        vertices,
        edges,
        build_time,
        query_time,
        recommendation_time,
        candidates_found: recommendations.len(),
    };
    proof {
        let recs = recommendations@.map_values(|x: crate::recommendation::Recommendation| x@);
        assert(config == measured_config(products as nat));
        assert(is_synthetic(repository@, products as nat));
        assert(recs.len() == report.candidates_found);
    }
    Ok(report)
}

/// Measures one scenario (see `measure_scenario`).
pub fn run_benchmark<F: Fn(u64, u64) -> u64>(products: usize, multiply: F) -> (r: Result<BenchmarkReport, ConectaStoreError>)
    requires
        products <= usize::MAX / 32,
        forall|a: u64, b: u64| call_requires(multiply, (a, b)),
    ensures
        scenario_result(products, multiply, r),
{
    measure_scenario(products, multiply)
}

/// Builds the synthetic store of `products` products: categories first, then
/// products with their category and the similarity to the previous product,
/// then clients with a purchase, an interest and a rating each.
///
/// `products` is bounded by what memory can hold: every product takes more
/// than 32 bytes.
pub fn generate_synthetic_graph(products: usize) -> (r: Result<StoreRepository, ConectaStoreError>)
    requires
        products <= usize::MAX / 32,
    ensures
        match r {
            Ok(repository) => repository.wf() && is_synthetic(repository@, products as nat),
            Err(_) => false,
        },
{
    let clients: usize = if products / 10 > 10 { products / 10 } else { 10 };
    let categories: usize = if products / 100 > 1 { products / 100 } else { 1 };
    let ghost total = products as nat;
    let mut repository = StoreRepository::new();
    proof {
        repository.lemma_well_formed();
        assert(repository@.order =~= synthetic_order(0, 0, 0));
        assert forall|id: NodeId| #[trigger] repository@.contains(id) <==> registered(id, 0, 0, 0) by {}
        assert(repository@.edge_total() == 0);
    }
    let mut category: usize = 1;
    while category <= categories
        invariant
            products <= usize::MAX / 32,
            total == products,
            categories == category_total(total),
            clients == client_total(total),
            1 <= category <= categories + 1,
            repository.wf(),
            built(repository@, total, (category - 1) as nat, 0, 0),
        decreases categories + 1 - category,
    {
        let name = numbered("Categoria ", category as u64);
        proof {
            lemma_category_stage(repository@, total, (category - 1) as nat);
        }
        repository.add_category(category as u64, name.as_str())?;
        category = category + 1;
    }
    let mut product: usize = 1;
    while product <= products
        invariant
            products <= usize::MAX / 32,
            total == products,
            categories == category_total(total),
            clients == client_total(total),
            1 <= product <= products + 1,
            repository.wf(),
            built(repository@, total, categories as nat, (product - 1) as nat, 0),
        decreases products + 1 - product,
    {
        let product_id = product as u64;
        let category_id = ((product - 1) % categories + 1) as u64;
        let name = numbered("Produto ", product_id);
        proof {
            lemma_product_stage(repository@, total, (product - 1) as nat);
        }
        repository.add_product(product_id, name.as_str(), PRICE_BITS, true)?;
        repository.connect(NodeId::Product(product_id), NodeId::Category(category_id), RelationType::BelongsToCategory, ONE_BITS)?;
        if product > 1 {
            repository.connect(NodeId::Product((product - 1) as u64), NodeId::Product(product_id), RelationType::Similarity, SIMILARITY_BITS)?;
        }
        product = product + 1;
    }
    let mut client: usize = 1;
    while client <= clients
        invariant
            products <= usize::MAX / 32,
            total == products,
            categories == category_total(total),
            clients == client_total(total),
            1 <= client <= clients + 1,
            repository.wf(),
            built(repository@, total, categories as nat, total, (client - 1) as nat),
        decreases clients + 1 - client,
    {
        let client_id = client as u64;
        let name = numbered("Cliente ", client_id);
        proof {
            lemma_client_stage(repository@, total, (client - 1) as nat);
        }
        repository.add_client(client_id, name.as_str())?;
        if products > 0 {
            let first = ((client * 7) % products + 1) as u64;
            let second = ((client * 13) % products + 1) as u64;
            let third = ((client * 17) % products + 1) as u64;
            repository.connect(NodeId::Client(client_id), NodeId::Product(first), RelationType::Purchase, ONE_BITS)?;
            repository.connect(NodeId::Client(client_id), NodeId::Product(second), RelationType::Interest, INTEREST_BITS)?;
            repository.connect(NodeId::Client(client_id), NodeId::Product(third), RelationType::Rating, RATING_BITS)?;
        }
        client = client + 1;
    }
    Ok(repository)
}

/// No entry of the list joins `destination` through `relation`.
proof fn lemma_key_absent(edges: Seq<Edge>, destination: NodeId, relation: RelationType)
    requires
        forall|i: int| 0 <= i < edges.len() ==> !(#[trigger] edges[i].destination == destination && edges[i].relation == relation),
    ensures
        find_weight(edges, destination, relation) is None,
{
    assert(!exists|i: int| matches_key(edges, i, destination, relation));
}

/// Registering category `c + 1` extends the store.
proof fn lemma_category_stage(g: GraphView, products: nat, c: nat)
    requires
        built(g, products, c, 0, 0),
        c + 1 <= u64::MAX,
    ensures
        !g.contains(NodeId::Category((c + 1) as u64)),
        built(g.insert_node(synthetic_node(NodeId::Category((c + 1) as u64))), products, c + 1, 0, 0),
{
    let n = synthetic_node(NodeId::Category((c + 1) as u64));
    assert(!registered(n.id(), c, 0, 0));
    lemma_insert_node_well_formed(g, n);
    lemma_insert_node_edge_total(g, n);
    let h = g.insert_node(n);
    assert(h.order =~= synthetic_order(c + 1, 0, 0));
    assert forall|id: NodeId| #[trigger] h.contains(id) <==> registered(id, c + 1, 0, 0) by {
        assert(g.contains(id) <==> registered(id, c, 0, 0));
    }
    assert forall|id: NodeId| #[trigger] h.contains(id) implies h.nodes[id] == synthetic_node(id) by {
        if id != n.id() {
            assert(g.contains(id));
        }
    }
    assert forall|id: NodeId| #[trigger] h.contains(id) implies h.outgoing[id] == match id {
        NodeId::Category(_) => Seq::<Edge>::empty(),
        NodeId::Product(x) => product_edges(x as nat, 0, category_total(products)),
        NodeId::Client(x) => client_edges(x as nat, products),
    } by {
        if id != n.id() {
            assert(g.contains(id));
        }
    }
    assert forall|id: NodeId| #[trigger] h.contains(id) implies h.incoming[id] == match id {
        NodeId::Category(x) => category_incoming(x as nat, 0, category_total(products)),
        NodeId::Product(x) => product_incoming(x as nat, 0, products),
        NodeId::Client(_) => Seq::<Edge>::empty(),
    } by {
        if id != n.id() {
            assert(g.contains(id));
        } else {
            assert(category_incoming((c + 1) as nat, 0, category_total(products)) == Seq::<Edge>::empty());
        }
    }
}

/// Registering product `p + 1`, its category relation and the similarity from
/// product `p` extends the store.
proof fn lemma_product_stage(g: GraphView, products: nat, p: nat)
    requires
        built(g, products, category_total(products), p, 0),
        p < products <= u64::MAX,
    ensures
        ({
            let cats = category_total(products);
            let q = p + 1;
            let n = synthetic_node(NodeId::Product(q as u64));
            let g1 = g.insert_node(n);
            let cat = NodeId::Category(category_for(q, cats) as u64);
            let g2 = g1.connect_edges(NodeId::Product(q as u64), cat, RelationType::BelongsToCategory, ONE_BITS);
            let g3 = if q > 1 {
                g2.connect_edges(NodeId::Product(p as u64), NodeId::Product(q as u64), RelationType::Similarity, SIMILARITY_BITS)
            } else {
                g2
            };
            &&& !g.contains(NodeId::Product(q as u64))
            &&& g1.connect_error(NodeId::Product(q as u64), cat, RelationType::BelongsToCategory, ONE_BITS) is None
            &&& q > 1 ==> g2.connect_error(NodeId::Product(p as u64), NodeId::Product(q as u64), RelationType::Similarity, SIMILARITY_BITS) is None
            &&& built(g3, products, cats, q, 0)
        }),
{
    let cats = category_total(products);
    let q = p + 1;
    let n = synthetic_node(NodeId::Product(q as u64));
    assert(!registered(n.id(), cats, p, 0));
    lemma_insert_node_well_formed(g, n);
    lemma_insert_node_edge_total(g, n);
    let g1 = g.insert_node(n);
    let c = category_for(q, cats);
    let cat = NodeId::Category(c as u64);
    assert(1 <= c <= cats);
    assert(registered(cat, cats, q, 0));
    assert(g1.contains(cat)) by {
        assert(g.contains(cat) <==> registered(cat, cats, p, 0));
    }
    lemma_key_absent(g1.outgoing[NodeId::Product(q as u64)], cat, RelationType::BelongsToCategory);
    lemma_connect_new_key(g1, NodeId::Product(q as u64), cat, RelationType::BelongsToCategory, ONE_BITS);
    let g2 = g1.connect_edges(NodeId::Product(q as u64), cat, RelationType::BelongsToCategory, ONE_BITS);
    assert(g2.outgoing[NodeId::Product(q as u64)] =~= product_edges(q, q, cats));
    if q > 1 {
        assert(g.contains(NodeId::Product(p as u64)) <==> registered(NodeId::Product(p as u64), cats, p, 0));
        assert(g.outgoing[NodeId::Product(p as u64)] == product_edges(p, p, cats));
        assert(g2.outgoing[NodeId::Product(p as u64)] == g.outgoing[NodeId::Product(p as u64)]);
        lemma_key_absent(g2.outgoing[NodeId::Product(p as u64)], NodeId::Product(q as u64), RelationType::Similarity);
        lemma_connect_new_key(g2, NodeId::Product(p as u64), NodeId::Product(q as u64), RelationType::Similarity, SIMILARITY_BITS);
        let g3 = g2.connect_edges(NodeId::Product(p as u64), NodeId::Product(q as u64), RelationType::Similarity, SIMILARITY_BITS);
        assert(g3.outgoing[NodeId::Product(p as u64)] =~= product_edges(p, q, cats));
        assert(g3.order =~= synthetic_order(cats, q, 0));
        assert forall|id: NodeId| #[trigger] g3.contains(id) <==> registered(id, cats, q, 0) by {
            assert(g.contains(id) <==> registered(id, cats, p, 0));
        }
        assert forall|id: NodeId| #[trigger] g3.contains(id) implies g3.nodes[id] == synthetic_node(id) by {
            if id != n.id() {
                assert(g.contains(id));
            }
        }
        assert forall|id: NodeId| #[trigger] g3.contains(id) implies g3.outgoing[id] == match id {
            NodeId::Category(_) => Seq::<Edge>::empty(),
            NodeId::Product(x) => product_edges(x as nat, q, cats),
            NodeId::Client(x) => client_edges(x as nat, products),
        } by {
            if id != n.id() && id != NodeId::Product(p as u64) {
                assert(g.contains(id));
            }
        }
        assert forall|id: NodeId| #[trigger] g3.contains(id) implies g3.incoming[id] == match id {
            NodeId::Category(x) => category_incoming(x as nat, q, cats),
            NodeId::Product(x) => product_incoming(x as nat, 0, products),
            NodeId::Client(_) => Seq::<Edge>::empty(),
        } by {
            if id == n.id() {
                assert(g3.incoming[id] =~= product_incoming(q, 0, products));
            } else {
                assert(g.contains(id));
                if id == cat {
                    assert(g.incoming[id] == category_incoming(c, p, cats));
                    assert(g3.incoming[id] =~= category_incoming(c, q, cats));
                }
            }
        }
    } else {
        assert(g2.order =~= synthetic_order(cats, q, 0));
        assert forall|id: NodeId| #[trigger] g2.contains(id) <==> registered(id, cats, q, 0) by {
            assert(g.contains(id) <==> registered(id, cats, p, 0));
        }
        assert forall|id: NodeId| #[trigger] g2.contains(id) implies g2.nodes[id] == synthetic_node(id) by {
            if id != n.id() {
                assert(g.contains(id));
            }
        }
        assert forall|id: NodeId| #[trigger] g2.contains(id) implies g2.outgoing[id] == match id {
            NodeId::Category(_) => Seq::<Edge>::empty(),
            NodeId::Product(x) => product_edges(x as nat, q, cats),
            NodeId::Client(x) => client_edges(x as nat, products),
        } by {
            if id != n.id() {
                assert(g.contains(id));
            }
        }
        assert forall|id: NodeId| #[trigger] g2.contains(id) implies g2.incoming[id] == match id {
            NodeId::Category(x) => category_incoming(x as nat, q, cats),
            NodeId::Product(x) => product_incoming(x as nat, 0, products),
            NodeId::Client(_) => Seq::<Edge>::empty(),
        } by {
            if id == n.id() {
                assert(g2.incoming[id] =~= product_incoming(q, 0, products));
            } else {
                assert(g.contains(id));
                if id == cat {
                    assert(g.incoming[id] == category_incoming(c, p, cats));
                    assert(g2.incoming[id] =~= category_incoming(c, q, cats));
                }
            }
        }
    }
}

/// Registering client `k + 1` with its three relations extends the store.
proof fn lemma_client_stage(g: GraphView, products: nat, k: nat)
    requires
        built(g, products, category_total(products), products, k),
        products <= u64::MAX,
        k + 1 <= u64::MAX,
    ensures
        ({
            let cats = category_total(products);
            let j = k + 1;
            let client = NodeId::Client(j as u64);
            let n = synthetic_node(client);
            let g1 = g.insert_node(n);
            let a = NodeId::Product(pick(j, 7, products) as u64);
            let b = NodeId::Product(pick(j, 13, products) as u64);
            let c = NodeId::Product(pick(j, 17, products) as u64);
            let g2 = g1.connect_edges(client, a, RelationType::Purchase, ONE_BITS);
            let g3 = g2.connect_edges(client, b, RelationType::Interest, INTEREST_BITS);
            let g4 = g3.connect_edges(client, c, RelationType::Rating, RATING_BITS);
            &&& !g.contains(client)
            &&& products > 0 ==> g1.connect_error(client, a, RelationType::Purchase, ONE_BITS) is None
            &&& products > 0 ==> g2.connect_error(client, b, RelationType::Interest, INTEREST_BITS) is None
            &&& products > 0 ==> g3.connect_error(client, c, RelationType::Rating, RATING_BITS) is None
            &&& built(if products > 0 { g4 } else { g1 }, products, cats, products, j)
        }),
{
    let cats = category_total(products);
    let j = k + 1;
    let client = NodeId::Client(j as u64);
    let n = synthetic_node(client);
    assert(!registered(client, cats, products, k));
    lemma_insert_node_well_formed(g, n);
    lemma_insert_node_edge_total(g, n);
    let g1 = g.insert_node(n);
    assert(g1.order =~= synthetic_order(cats, products, j));
    assert forall|id: NodeId| #[trigger] g1.contains(id) <==> registered(id, cats, products, j) by {
        assert(g.contains(id) <==> registered(id, cats, products, k));
    }
    if products > 0 {
        let a = NodeId::Product(pick(j, 7, products) as u64);
        let b = NodeId::Product(pick(j, 13, products) as u64);
        let c = NodeId::Product(pick(j, 17, products) as u64);
        assert(g1.contains(a) && g1.contains(b) && g1.contains(c)) by {
            assert(registered(a, cats, products, j));
            assert(registered(b, cats, products, j));
            assert(registered(c, cats, products, j));
        }
        lemma_key_absent(g1.outgoing[client], a, RelationType::Purchase);
        lemma_connect_new_key(g1, client, a, RelationType::Purchase, ONE_BITS);
        let g2 = g1.connect_edges(client, a, RelationType::Purchase, ONE_BITS);
        lemma_key_absent(g2.outgoing[client], b, RelationType::Interest);
        lemma_connect_new_key(g2, client, b, RelationType::Interest, INTEREST_BITS);
        let g3 = g2.connect_edges(client, b, RelationType::Interest, INTEREST_BITS);
        assert forall|i: int| 0 <= i < g3.outgoing[client].len() implies !(#[trigger] g3.outgoing[client][i].destination == c
            && g3.outgoing[client][i].relation == RelationType::Rating) by {}
        lemma_key_absent(g3.outgoing[client], c, RelationType::Rating);
        lemma_connect_new_key(g3, client, c, RelationType::Rating, RATING_BITS);
        let g4 = g3.connect_edges(client, c, RelationType::Rating, RATING_BITS);
        assert(g4.outgoing[client] =~= client_edges(j, products));
        assert(g4.nodes == g1.nodes && g4.order == g1.order);
        assert forall|id: NodeId| #[trigger] g4.contains(id) <==> registered(id, cats, products, j) by {
            assert(g1.contains(id) <==> registered(id, cats, products, j));
        }
        assert(g4.edge_total() == g.edge_total() + 3);
        assert forall|id: NodeId| #[trigger] g4.contains(id) implies g4.nodes[id] == synthetic_node(id) by {
            if id != n.id() {
                assert(g.contains(id));
            }
        }
        assert forall|id: NodeId| #[trigger] g4.contains(id) implies g4.outgoing[id] == match id {
            NodeId::Category(_) => Seq::<Edge>::empty(),
            NodeId::Product(x) => product_edges(x as nat, products, cats),
            NodeId::Client(x) => client_edges(x as nat, products),
        } by {
            if id != n.id() {
                assert(g.contains(id));
            }
        }
        let ea = Edge { destination: client, relation: RelationType::Purchase, weight_bits: ONE_BITS };
        let eb = Edge { destination: client, relation: RelationType::Interest, weight_bits: INTEREST_BITS };
        let ec = Edge { destination: client, relation: RelationType::Rating, weight_bits: RATING_BITS };
        assert forall|id: NodeId| #[trigger] g4.contains(id) implies g4.incoming[id] == match id {
            NodeId::Category(x) => category_incoming(x as nat, products, cats),
            NodeId::Product(x) => product_incoming(x as nat, j, products),
            NodeId::Client(_) => Seq::<Edge>::empty(),
        } by {
            if id != n.id() {
                assert(g.contains(id));
                let base = g.incoming[id];
                let with_a = if id == a { base.push(ea) } else { base };
                let with_b = if id == b { with_a.push(eb) } else { with_a };
                let with_c = if id == c { with_b.push(ec) } else { with_b };
                assert(g2.incoming[id] == with_a);
                assert(g3.incoming[id] == with_b);
                assert(g4.incoming[id] == with_c);
                if let NodeId::Product(x) = id {
                    assert(with_c =~= product_incoming(x as nat, j, products));
                }
            }
        }
    } else {
        assert(g1.outgoing[client] =~= client_edges(j, products));
        assert forall|id: NodeId| #[trigger] g1.contains(id) implies g1.nodes[id] == synthetic_node(id) by {
            if id != n.id() {
                assert(g.contains(id));
            }
        }
        assert forall|id: NodeId| #[trigger] g1.contains(id) implies g1.outgoing[id] == match id {
            NodeId::Category(_) => Seq::<Edge>::empty(),
            NodeId::Product(x) => product_edges(x as nat, products, cats),
            NodeId::Client(x) => client_edges(x as nat, products),
        } by {
            if id != n.id() {
                assert(g.contains(id));
            }
        }
        assert forall|id: NodeId| #[trigger] g1.contains(id) implies g1.incoming[id] == match id {
            NodeId::Category(x) => category_incoming(x as nat, products, cats),
            NodeId::Product(x) => product_incoming(x as nat, j, products),
            NodeId::Client(_) => Seq::<Edge>::empty(),
        } by {
            if id != n.id() {
                assert(g.contains(id));
                if let NodeId::Product(x) = id {
                    assert(product_incoming(x as nat, j, products) =~= product_incoming(x as nat, k, products));
                }
            }
        }
    }
}

} // verus!
