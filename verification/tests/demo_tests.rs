use megastore::demo::build_demo_repository;
use megastore::{ConectaStoreError, NodeId, RecommendationConfig, RecommendationEngine, RelationType};

/// Binary64 product of two values given by their bit patterns.
fn multiply(a: u64, b: u64) -> u64 {
    (f64::from_bits(a) * f64::from_bits(b)).to_bits()
}

#[test]
fn loja_de_demonstracao_tem_os_cadastros_e_relacoes() -> Result<(), ConectaStoreError> {
    let repository = build_demo_repository()?;
    let graph = repository.graph();
    assert_eq!(graph.node_count(), 8);
    assert_eq!(graph.edge_count(), 9);
    assert_eq!(repository.client(2)?.name, "Bruno");
    assert_eq!(repository.category(20)?.name, "Acessorios");
    let notebook = repository.product(101)?;
    assert_eq!(notebook.name, "Notebook");
    assert_eq!(f64::from_bits(notebook.price_bits), 3500.0);
    let out = graph.outgoing(NodeId::Client(2))?;
    assert_eq!(out.len(), 2);
    assert_eq!(out[1].destination, NodeId::Product(103));
    assert_eq!(out[1].relation, RelationType::Purchase);
    assert_eq!(f64::from_bits(out[1].weight_bits), 0.9);
    assert_eq!(graph.incoming(NodeId::Product(101))?.len(), 2);
    Ok(())
}

#[test]
fn demonstracao_recomenda_para_ana_e_para_o_notebook() -> Result<(), ConectaStoreError> {
    let repository = build_demo_repository()?;
    let engine = RecommendationEngine::new(repository.graph());
    let for_ana = engine.for_client(1, RecommendationConfig::default(), multiply)?;
    let ids: Vec<u64> = for_ana.iter().map(|item| item.product_id).collect();
    assert_eq!(ids, vec![104, 103, 102]);
    assert_eq!(for_ana[0].reason, "produto similar");
    assert_eq!(for_ana[0].category, "Informatica");
    assert_eq!(for_ana[1].reason, "compras em comum");
    assert_eq!(for_ana[2].reason, "interesse relacionado");
    assert_eq!(for_ana[2].name, "Mouse sem fio");
    let from_notebook = engine.for_product(101, RecommendationConfig::default(), multiply)?;
    let ids: Vec<u64> = from_notebook.iter().map(|item| item.product_id).collect();
    assert_eq!(ids, vec![104, 103, 102]);
    assert_eq!(f64::from_bits(from_notebook[0].score_bits), ((1.0f64 * 0.9) * 1.0) * 0.85);
    assert_eq!(from_notebook[1].category, "Acessorios");
    Ok(())
}
