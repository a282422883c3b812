use megastore::benchmark::{generate_synthetic_graph, measure_scenario, run_benchmark};
use megastore::{ConectaStoreError, NodeId, RelationType};

/// Binary64 product of two values given by their bit patterns.
fn multiply(a: u64, b: u64) -> u64 {
    (f64::from_bits(a) * f64::from_bits(b)).to_bits()
}

#[test]
fn gerador_produz_volume_e_relacoes_reproduziveis() -> Result<(), ConectaStoreError> {
    let first = generate_synthetic_graph(100)?;
    let second = generate_synthetic_graph(100)?;
    assert_eq!(first.graph().node_count(), second.graph().node_count());
    assert_eq!(first.graph().edge_count(), second.graph().edge_count());
    assert_eq!(first.product(100)?.name, "Produto 100");
    Ok(())
}

#[test]
fn gerador_tem_volumes_esperados() -> Result<(), ConectaStoreError> {
    let repository = generate_synthetic_graph(250)?;
    // 2 categories, 250 products, 25 clients
    assert_eq!(repository.graph().node_count(), 2 + 250 + 25);
    // 250 category links, 249 similarities, 3 relations per client
    assert_eq!(repository.graph().edge_count(), 250 + 249 + 3 * 25);
    assert_eq!(repository.category(2)?.name, "Categoria 2");
    assert_eq!(repository.client(25)?.name, "Cliente 25");
    let edges = repository.graph().outgoing(NodeId::Product(3))?;
    assert_eq!(edges.len(), 2);
    assert_eq!(edges[0].destination, NodeId::Category(1));
    assert_eq!(edges[1].destination, NodeId::Product(4));
    assert_eq!(edges[1].relation, RelationType::Similarity);
    let client = repository.graph().outgoing(NodeId::Client(1))?;
    assert_eq!(client[0].destination, NodeId::Product(8));
    assert_eq!(client[1].destination, NodeId::Product(14));
    assert_eq!(client[2].destination, NodeId::Product(18));
    Ok(())
}

#[test]
fn gerador_sem_produtos_tem_apenas_categoria_e_clientes() -> Result<(), ConectaStoreError> {
    let repository = generate_synthetic_graph(0)?;
    assert_eq!(repository.graph().node_count(), 1 + 10);
    assert_eq!(repository.graph().edge_count(), 0);
    Ok(())
}

#[test]
fn medicao_relata_volumes() -> Result<(), ConectaStoreError> {
    let report = measure_scenario(100, multiply)?;
    assert_eq!(report.products, 100);
    assert_eq!(report.clients, 10);
    assert_eq!(report.vertices, 1 + 100 + 10);
    assert_eq!(report.edges, 100 + 99 + 30);
    assert!(report.candidates_found > 0);
    assert!(report.candidates_found <= 100);
    let again = run_benchmark(100, multiply)?;
    assert_eq!(again.candidates_found, report.candidates_found);
    Ok(())
}

#[test]
fn medicao_sem_produtos_falha_na_consulta() {
    assert_eq!(
        measure_scenario(0, multiply).err(),
        Some(ConectaStoreError::NodeNotFound(NodeId::Product(1)))
    );
}
