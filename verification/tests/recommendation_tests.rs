use megastore::{
    ConectaStoreError, NodeId, RecommendationConfig, RecommendationEngine, RelationType,
    StoreRepository,
};

/// Binary64 product of two values given by their bit patterns.
fn multiply(a: u64, b: u64) -> u64 {
    (f64::from_bits(a) * f64::from_bits(b)).to_bits()
}

fn bits(value: f64) -> u64 {
    value.to_bits()
}

fn base_repository() -> Result<StoreRepository, ConectaStoreError> {
    let mut repository = StoreRepository::new();
    repository.add_client(1, "Ana")?;
    repository.add_category(1, "Tecnologia")?;
    for (id, name) in [
        (10, "Origem"),
        (20, "Forte"),
        (30, "Fraco"),
        (40, "Distante"),
    ] {
        repository.add_product(id, name, bits(100.0), true)?;
    }
    Ok(repository)
}

#[test]
fn bfs_encontra_produto_em_dois_passos() -> Result<(), ConectaStoreError> {
    let mut repository = base_repository()?;
    repository.connect(NodeId::Client(1), NodeId::Product(10), RelationType::Interest, bits(1.0))?;
    repository.connect(NodeId::Product(10), NodeId::Product(20), RelationType::Similarity, bits(0.9))?;
    let engine = RecommendationEngine::new(repository.graph());
    let results = engine.for_client(1, RecommendationConfig::default(), multiply)?;
    assert!(results.iter().any(|item| item.product_id == 20));
    Ok(())
}

#[test]
fn respeita_limite_de_profundidade() -> Result<(), ConectaStoreError> {
    let mut repository = base_repository()?;
    repository.connect(NodeId::Product(10), NodeId::Product(20), RelationType::Similarity, bits(1.0))?;
    repository.connect(NodeId::Product(20), NodeId::Product(40), RelationType::Similarity, bits(1.0))?;
    let engine = RecommendationEngine::new(repository.graph());
    let results = engine.for_product(
        10,
        RecommendationConfig {
            max_depth: 1,
            limit: 10,
            distance_decay_bits: bits(0.85),
        },
        multiply,
    )?;
    assert!(results.iter().any(|item| item.product_id == 20));
    assert!(!results.iter().any(|item| item.product_id == 40));
    Ok(())
}

#[test]
fn ciclo_termina_sem_repetir_resultados() -> Result<(), ConectaStoreError> {
    let mut repository = base_repository()?;
    repository.connect(NodeId::Product(10), NodeId::Product(20), RelationType::Similarity, bits(1.0))?;
    repository.connect(NodeId::Product(20), NodeId::Product(10), RelationType::Similarity, bits(1.0))?;
    let engine = RecommendationEngine::new(repository.graph());
    let results = engine.for_product(10, RecommendationConfig::default(), multiply)?;
    assert_eq!(
        results.iter().filter(|item| item.product_id == 20).count(),
        1
    );
    assert!(!results.iter().any(|item| item.product_id == 10));
    Ok(())
}

#[test]
fn exclui_produto_ja_comprado() -> Result<(), ConectaStoreError> {
    let mut repository = base_repository()?;
    repository.connect(NodeId::Client(1), NodeId::Product(10), RelationType::Purchase, bits(1.0))?;
    repository.connect(NodeId::Client(1), NodeId::Product(20), RelationType::Interest, bits(1.0))?;
    let engine = RecommendationEngine::new(repository.graph());
    let results = engine.for_client(1, RecommendationConfig::default(), multiply)?;
    assert!(!results.iter().any(|item| item.product_id == 10));
    assert!(results.iter().any(|item| item.product_id == 20));
    Ok(())
}

#[test]
fn ordena_por_score_e_depois_por_id() -> Result<(), ConectaStoreError> {
    let mut repository = base_repository()?;
    repository.connect(NodeId::Product(10), NodeId::Product(30), RelationType::Similarity, bits(0.5))?;
    repository.connect(NodeId::Product(10), NodeId::Product(20), RelationType::Similarity, bits(0.9))?;
    repository.connect(NodeId::Product(10), NodeId::Product(40), RelationType::Similarity, bits(0.5))?;
    let engine = RecommendationEngine::new(repository.graph());
    let results = engine.for_product(10, RecommendationConfig::default(), multiply)?;
    let ids: Vec<u64> = results.iter().map(|item| item.product_id).collect();
    assert_eq!(ids, vec![20, 30, 40]);
    Ok(())
}

#[test]
fn limita_quantidade_de_resultados() -> Result<(), ConectaStoreError> {
    let mut repository = base_repository()?;
    for id in [20, 30, 40] {
        repository.connect(NodeId::Product(10), NodeId::Product(id), RelationType::Similarity, bits(0.8))?;
    }
    let engine = RecommendationEngine::new(repository.graph());
    let results = engine.for_product(
        10,
        RecommendationConfig {
            max_depth: 2,
            limit: 2,
            distance_decay_bits: bits(0.85),
        },
        multiply,
    )?;
    assert_eq!(results.len(), 2);
    Ok(())
}

#[test]
fn retorna_vazio_quando_nao_ha_recomendacoes() -> Result<(), ConectaStoreError> {
    let repository = base_repository()?;
    let engine = RecommendationEngine::new(repository.graph());
    assert!(engine
        .for_client(1, RecommendationConfig::default(), multiply)?
        .is_empty());
    Ok(())
}

#[test]
fn rejeita_configuracoes_invalidas_na_ordem_documentada() -> Result<(), ConectaStoreError> {
    let repository = base_repository()?;
    let engine = RecommendationEngine::new(repository.graph());
    let bad_all = RecommendationConfig { max_depth: 0, limit: 0, distance_decay_bits: bits(2.0) };
    assert_eq!(
        engine.for_client(99, bad_all, multiply),
        Err(ConectaStoreError::NodeNotFound(NodeId::Client(99)))
    );
    assert_eq!(engine.for_client(1, bad_all, multiply), Err(ConectaStoreError::InvalidLimit));
    let bad_depth = RecommendationConfig { max_depth: 0, limit: 3, distance_decay_bits: bits(2.0) };
    assert_eq!(engine.for_product(10, bad_depth, multiply), Err(ConectaStoreError::InvalidDepth));
    let bad_decay = RecommendationConfig { max_depth: 2, limit: 3, distance_decay_bits: bits(f64::NAN) };
    assert!(matches!(
        engine.for_product(10, bad_decay, multiply),
        Err(ConectaStoreError::InvalidWeight(carried)) if carried == bits(f64::NAN)
    ));
    Ok(())
}

#[test]
fn pontuacao_categoria_e_motivo_do_melhor_caminho() -> Result<(), ConectaStoreError> {
    let mut repository = base_repository()?;
    repository.connect(NodeId::Product(20), NodeId::Category(1), RelationType::BelongsToCategory, bits(1.0))?;
    repository.connect(NodeId::Client(1), NodeId::Product(20), RelationType::Rating, bits(0.5))?;
    repository.connect(NodeId::Client(1), NodeId::Product(30), RelationType::Interest, bits(1.0))?;
    let engine = RecommendationEngine::new(repository.graph());
    let config = RecommendationConfig { max_depth: 1, limit: 5, distance_decay_bits: bits(0.5) };
    let results = engine.for_client(1, config, multiply)?;
    assert_eq!(results.len(), 2);
    // 1.0 * 1.0 * 0.8 * 0.5
    assert_eq!(results[0].product_id, 30);
    assert_eq!(f64::from_bits(results[0].score_bits), 1.0 * 1.0 * 0.8 * 0.5);
    assert_eq!(results[0].category, "Sem categoria");
    assert_eq!(results[0].reason, "interesse relacionado");
    assert_eq!(results[0].name, "Fraco");
    // 1.0 * 0.5 * 0.9 * 0.5
    assert_eq!(results[1].product_id, 20);
    assert_eq!(f64::from_bits(results[1].score_bits), 1.0 * 0.5 * 0.9 * 0.5);
    assert_eq!(results[1].category, "Tecnologia");
    assert_eq!(results[1].reason, "avaliacao relacionada");
    Ok(())
}

#[test]
fn produto_indisponivel_nao_e_recomendado() -> Result<(), ConectaStoreError> {
    let mut repository = base_repository()?;
    repository.add_product(50, "Esgotado", bits(10.0), false)?;
    repository.connect(NodeId::Product(10), NodeId::Product(50), RelationType::Similarity, bits(1.0))?;
    repository.connect(NodeId::Product(50), NodeId::Product(20), RelationType::Similarity, bits(1.0))?;
    let engine = RecommendationEngine::new(repository.graph());
    let results = engine.for_product(10, RecommendationConfig::default(), multiply)?;
    let ids: Vec<u64> = results.iter().map(|item| item.product_id).collect();
    // the unavailable product is still traversed, so 20 is reached through it
    assert_eq!(ids, vec![20]);
    Ok(())
}
