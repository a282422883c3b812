//! Public API tests of registration, lookup and connection.

use megastore::{ConectaStoreError, NodeId, RelationType, StoreRepository};

#[test]
fn cadastra_consulta_e_atualiza_conexao() -> Result<(), ConectaStoreError> {
    let mut repository = StoreRepository::new();
    repository.add_client(1, "Ana")?;
    repository.add_product(10, "Notebook", 3000.0f64.to_bits(), true)?;
    repository.connect(
        NodeId::Client(1),
        NodeId::Product(10),
        RelationType::Interest,
        0.5f64.to_bits(),
    )?;
    repository.connect(
        NodeId::Client(1),
        NodeId::Product(10),
        RelationType::Interest,
        0.9f64.to_bits(),
    )?;

    assert_eq!(repository.product(10)?.name, "Notebook");
    let edges = repository.graph().outgoing(NodeId::Client(1))?;
    assert_eq!(edges.len(), 1);
    assert_eq!(f64::from_bits(edges[0].weight_bits), 0.9);
    Ok(())
}

#[test]
fn rejeita_peso_e_relacionamento_invalidos() -> Result<(), ConectaStoreError> {
    let mut repository = StoreRepository::new();
    repository.add_client(1, "Ana")?;
    repository.add_product(10, "Notebook", 3000.0f64.to_bits(), true)?;

    let weight_error = repository.connect(
        NodeId::Client(1),
        NodeId::Product(10),
        RelationType::Purchase,
        1.5f64.to_bits(),
    );
    assert!(matches!(
        weight_error,
        Err(ConectaStoreError::InvalidWeight(_))
    ));

    let relation_error = repository.connect(
        NodeId::Product(10),
        NodeId::Client(1),
        RelationType::Purchase,
        1.0f64.to_bits(),
    );
    assert!(matches!(
        relation_error,
        Err(ConectaStoreError::InvalidRelationship { .. })
    ));
    Ok(())
}
