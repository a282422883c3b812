use megastore::{ConectaStoreError, NodeId, RecommendationConfig, RecommendationEngine, RelationType, StoreRepository};

/// Binary64 product of two values given by their bit patterns.
fn multiply(a: u64, b: u64) -> u64 {
    (f64::from_bits(a) * f64::from_bits(b)).to_bits()
}

#[test]
fn conectar_duas_vezes_mantem_o_ultimo_peso_nos_dois_indices() -> Result<(), ConectaStoreError> {
    let mut repository = StoreRepository::default();
    repository.add_product(1, "A", 1.0f64.to_bits(), true)?;
    repository.add_product(2, "B", 1.0f64.to_bits(), true)?;
    repository.connect(NodeId::Product(1), NodeId::Product(2), RelationType::Similarity, 0.3f64.to_bits())?;
    repository.connect(NodeId::Product(1), NodeId::Product(2), RelationType::Similarity, 0.6f64.to_bits())?;
    let graph = repository.graph();
    assert_eq!(graph.edge_count(), 1);
    let out = graph.outgoing(NodeId::Product(1))?;
    let inc = graph.incoming(NodeId::Product(2))?;
    assert_eq!(out.len(), 1);
    assert_eq!(inc.len(), 1);
    assert_eq!(out[0].destination, NodeId::Product(2));
    assert_eq!(inc[0].destination, NodeId::Product(1));
    assert_eq!(f64::from_bits(out[0].weight_bits), 0.6);
    assert_eq!(inc[0].weight_bits, out[0].weight_bits);
    Ok(())
}

#[test]
fn relacoes_diferentes_entre_o_mesmo_par_sao_distintas() -> Result<(), ConectaStoreError> {
    let mut repository = StoreRepository::new();
    repository.add_client(1, "Ana")?;
    repository.add_product(2, "B", 1.0f64.to_bits(), true)?;
    for relation in [RelationType::Purchase, RelationType::Interest, RelationType::Rating] {
        repository.connect(NodeId::Client(1), NodeId::Product(2), relation, 1.0f64.to_bits())?;
    }
    assert_eq!(repository.graph().edge_count(), 3);
    assert_eq!(repository.graph().incoming(NodeId::Product(2))?.len(), 3);
    Ok(())
}

#[test]
fn recomendacoes_ordenadas_unicas_e_dentro_da_profundidade() -> Result<(), ConectaStoreError> {
    let mut repository = StoreRepository::new();
    repository.add_client(1, "Ana")?;
    for id in 1..=8u64 {
        repository.add_product(id, "P", 1.0f64.to_bits(), id != 5)?;
    }
    for id in 1..8u64 {
        repository.connect(NodeId::Product(id), NodeId::Product(id + 1), RelationType::Similarity, 0.9f64.to_bits())?;
    }
    repository.connect(NodeId::Client(1), NodeId::Product(1), RelationType::Purchase, 1.0f64.to_bits())?;
    repository.connect(NodeId::Client(1), NodeId::Product(4), RelationType::Interest, 0.5f64.to_bits())?;
    let engine = RecommendationEngine::new(repository.graph());
    let config = RecommendationConfig { max_depth: 3, limit: 10, distance_decay_bits: 1.0f64.to_bits() };
    let results = engine.for_client(1, config, multiply)?;
    let ids: Vec<u64> = results.iter().map(|item| item.product_id).collect();
    // 2 through the purchased 1 (0.9), 3 through 1 and 2 (0.81), 4 directly (0.4),
    // 6 through 4 and the unavailable 5 (0.324); 7 and 8 are too far away
    assert!(!ids.contains(&1));
    assert!(!ids.contains(&5));
    assert!(!ids.contains(&8));
    for pair in results.windows(2) {
        let a = f64::from_bits(pair[0].score_bits);
        let b = f64::from_bits(pair[1].score_bits);
        assert!(a > b || (a == b && pair[0].product_id < pair[1].product_id));
    }
    let mut sorted = ids.clone();
    sorted.sort();
    sorted.dedup();
    assert_eq!(sorted.len(), ids.len());
    assert_eq!(ids, vec![2, 3, 4, 6]);
    assert_eq!(f64::from_bits(results[1].score_bits), 1.0 * 0.9 * 1.0 * 1.0 * 0.9 * 1.0 * 1.0);
    Ok(())
}

#[test]
fn gerador_repete_o_mesmo_grafo() -> Result<(), ConectaStoreError> {
    let first = megastore::benchmark::generate_synthetic_graph(120)?;
    let second = megastore::benchmark::generate_synthetic_graph(120)?;
    let mut ids = Vec::new();
    ids.push(NodeId::Category(1));
    for k in 1..=120u64 {
        ids.push(NodeId::Product(k));
    }
    for k in 1..=12u64 {
        ids.push(NodeId::Client(k));
    }
    for id in ids {
        assert_eq!(first.graph().outgoing(id)?, second.graph().outgoing(id)?);
        assert_eq!(first.graph().incoming(id)?, second.graph().incoming(id)?);
        assert_eq!(first.graph().node(id)?, second.graph().node(id)?);
    }
    assert_eq!(first.graph().node_count(), second.graph().node_count());
    assert!(!first.graph().contains(NodeId::Client(13)));
    assert!(!second.graph().contains(NodeId::Client(13)));
    Ok(())
}

#[test]
fn produto_alcancado_por_dois_caminhos_fica_com_a_maior_pontuacao() -> Result<(), ConectaStoreError> {
    let mut repository = StoreRepository::new();
    for id in [10u64, 20, 30] {
        repository.add_product(id, "P", 1.0f64.to_bits(), true)?;
    }
    repository.connect(NodeId::Product(10), NodeId::Product(20), RelationType::Similarity, 0.5f64.to_bits())?;
    repository.connect(NodeId::Product(10), NodeId::Product(30), RelationType::Similarity, 1.0f64.to_bits())?;
    repository.connect(NodeId::Product(30), NodeId::Product(20), RelationType::Similarity, 1.0f64.to_bits())?;
    let engine = RecommendationEngine::new(repository.graph());
    let results = engine.for_product(10, RecommendationConfig::default(), multiply)?;
    let ids: Vec<u64> = results.iter().map(|item| item.product_id).collect();
    assert_eq!(ids, vec![30, 20]);
    let via_30 = ((1.0f64 * 1.0) * 1.0) * 0.85;
    let direct = ((1.0f64 * 0.5) * 1.0) * 0.85;
    let through_30 = ((via_30 * 1.0) * 1.0) * 0.85;
    assert!(through_30 > direct);
    assert_eq!(f64::from_bits(results[0].score_bits), via_30);
    assert_eq!(f64::from_bits(results[1].score_bits), through_30);
    assert_eq!(results[1].reason, "produto similar");
    Ok(())
}

#[test]
fn cada_relacao_conta_uma_vez_em_cada_indice() -> Result<(), ConectaStoreError> {
    let repository = megastore::benchmark::generate_synthetic_graph(150)?;
    let graph = repository.graph();
    let mut ids = vec![NodeId::Category(1)];
    for k in 1..=150u64 {
        ids.push(NodeId::Product(k));
    }
    for k in 1..=15u64 {
        ids.push(NodeId::Client(k));
    }
    let mut outgoing = 0;
    let mut incoming = 0;
    for id in ids {
        outgoing += graph.outgoing(id)?.len();
        incoming += graph.incoming(id)?.len();
    }
    assert_eq!(graph.edge_count(), outgoing);
    assert_eq!(graph.edge_count(), incoming);
    Ok(())
}

#[test]
fn limite_menor_devolve_o_inicio_do_ranking() -> Result<(), ConectaStoreError> {
    let repository = megastore::benchmark::generate_synthetic_graph(60)?;
    let engine = RecommendationEngine::new(repository.graph());
    let full = engine.for_client(3, RecommendationConfig { max_depth: 3, limit: 60, distance_decay_bits: 0.85f64.to_bits() }, multiply)?;
    assert!(full.len() >= 3);
    for limit in 1..=full.len() {
        let part = engine.for_client(3, RecommendationConfig { max_depth: 3, limit, distance_decay_bits: 0.85f64.to_bits() }, multiply)?;
        assert_eq!(part.len(), limit);
        assert_eq!(&part[..], &full[..limit]);
    }
    Ok(())
}

#[test]
fn quantidade_de_recomendacoes_e_o_limite_ou_todos_os_candidatos() -> Result<(), ConectaStoreError> {
    let mut repository = StoreRepository::new();
    for id in [10u64, 20, 30, 40] {
        repository.add_product(id, "P", 1.0f64.to_bits(), true)?;
    }
    for id in [20u64, 30, 40] {
        repository.connect(NodeId::Product(10), NodeId::Product(id), RelationType::Similarity, 0.5f64.to_bits())?;
    }
    let engine = RecommendationEngine::new(repository.graph());
    let halving = |a: u64, b: u64| (f64::from_bits(a) * f64::from_bits(b) * 0.5).to_bits();
    for limit in 1..=5usize {
        let config = RecommendationConfig { max_depth: 2, limit, distance_decay_bits: 0.85f64.to_bits() };
        let with_product = engine.for_product(10, config, multiply)?;
        let with_other = engine.for_product(10, config, halving)?;
        assert_eq!(with_product.len(), limit.min(3));
        assert_eq!(with_other.len(), with_product.len());
    }
    Ok(())
}

#[test]
fn medicoes_do_mesmo_volume_concordam() -> Result<(), ConectaStoreError> {
    let first = megastore::benchmark::measure_scenario(300, multiply)?;
    let second = megastore::benchmark::run_benchmark(300, multiply)?;
    assert_eq!(first.clients, second.clients);
    assert_eq!(first.products, second.products);
    assert_eq!(first.vertices, second.vertices);
    assert_eq!(first.edges, second.edges);
    assert_eq!(first.candidates_found, second.candidates_found);
    assert_eq!(
        megastore::benchmark::measure_scenario(0, multiply).err(),
        megastore::benchmark::run_benchmark(0, multiply).err()
    );
    Ok(())
}
