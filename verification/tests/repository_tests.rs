use megastore::{ConectaStoreError, NodeId, StoreRepository};

#[test]
fn cadastra_e_consulta_produto_valido() -> Result<(), ConectaStoreError> {
    let mut repository = StoreRepository::new();
    repository.add_product(1, "Mouse", 99.90f64.to_bits(), true)?;
    let product = repository.product(1)?;
    assert_eq!(product.id, 1);
    assert_eq!(product.name, "Mouse");
    assert_eq!(f64::from_bits(product.price_bits), 99.90);
    assert!(product.available);
    Ok(())
}

#[test]
fn rejeita_id_duplicado() -> Result<(), ConectaStoreError> {
    let mut repository = StoreRepository::new();
    repository.add_product(1, "Mouse", 99.90f64.to_bits(), true)?;
    let result = repository.add_product(1, "Outro mouse", 120.0f64.to_bits(), true);
    assert_eq!(
        result,
        Err(ConectaStoreError::NodeAlreadyExists(NodeId::Product(1)))
    );
    Ok(())
}

#[test]
fn consulta_produto_inexistente() {
    let repository = StoreRepository::new();
    let result = repository.product(404);
    assert_eq!(
        result,
        Err(ConectaStoreError::NodeNotFound(NodeId::Product(404)))
    );
}

#[test]
fn cadastra_cliente_e_categoria() -> Result<(), ConectaStoreError> {
    let mut repository = StoreRepository::new();
    repository.add_client(1, "Ana")?;
    repository.add_category(2, "Tecnologia")?;
    assert_eq!(repository.client(1)?.name, "Ana");
    assert_eq!(repository.category(2)?.name, "Tecnologia");
    Ok(())
}

#[test]
fn rejeita_precos_invalidos() {
    for price in [-0.01, f64::INFINITY, f64::NEG_INFINITY, f64::NAN] {
        let mut repository = StoreRepository::new();
        let result = repository.add_product(1, "Mouse", price.to_bits(), true);
        assert!(matches!(result, Err(ConectaStoreError::InvalidPrice(bits)) if bits == price.to_bits()));
        assert_eq!(repository.graph().node_count(), 0);
    }
}

#[test]
fn aceita_preco_zero() -> Result<(), ConectaStoreError> {
    let mut repository = StoreRepository::new();
    repository.add_product(1, "Brinde", 0.0f64.to_bits(), false)?;
    repository.add_product(2, "Brinde negativo zero", (-0.0f64).to_bits(), true)?;
    assert!(!repository.product(1)?.available);
    Ok(())
}

#[test]
fn consulta_com_tipo_errado_nao_encontra() -> Result<(), ConectaStoreError> {
    let mut repository = StoreRepository::new();
    repository.add_client(7, "Ana")?;
    assert_eq!(
        repository.product(7),
        Err(ConectaStoreError::NodeNotFound(NodeId::Product(7)))
    );
    assert_eq!(
        repository.category(7),
        Err(ConectaStoreError::NodeNotFound(NodeId::Category(7)))
    );
    Ok(())
}
