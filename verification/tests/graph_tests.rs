use megastore::{Client, ConectaStoreError, Graph, Node, NodeId, Product, RelationType};

fn graph_with_client_and_product() -> Result<Graph, ConectaStoreError> {
    let mut graph = Graph::new();
    graph.add_node(Node::Client(Client {
        id: 1,
        name: "Ana".to_string(),
    }))?;
    graph.add_node(Node::Product(Product {
        id: 10,
        name: "Notebook".to_string(),
        price_bits: 3000.0f64.to_bits(),
        available: true,
    }))?;
    Ok(graph)
}

#[test]
fn cria_aresta_valida_e_indice_reverso() -> Result<(), ConectaStoreError> {
    let mut graph = graph_with_client_and_product()?;
    graph.connect(
        NodeId::Client(1),
        NodeId::Product(10),
        RelationType::Purchase,
        0.8f64.to_bits(),
    )?;
    assert_eq!(graph.outgoing(NodeId::Client(1))?.len(), 1);
    assert_eq!(graph.incoming(NodeId::Product(10))?.len(), 1);
    Ok(())
}

#[test]
fn rejeita_vertice_inexistente() -> Result<(), ConectaStoreError> {
    let mut graph = graph_with_client_and_product()?;
    let result = graph.connect(
        NodeId::Client(99),
        NodeId::Product(10),
        RelationType::Purchase,
        1.0f64.to_bits(),
    );
    assert_eq!(
        result,
        Err(ConectaStoreError::NodeNotFound(NodeId::Client(99)))
    );
    Ok(())
}

#[test]
fn rejeita_pesos_invalidos() -> Result<(), ConectaStoreError> {
    for weight in [-0.1, 1.1, f64::INFINITY, f64::NAN] {
        let mut graph = graph_with_client_and_product()?;
        let result = graph.connect(
            NodeId::Client(1),
            NodeId::Product(10),
            RelationType::Purchase,
            weight.to_bits(),
        );
        assert!(matches!(result, Err(ConectaStoreError::InvalidWeight(_))));
    }
    Ok(())
}

#[test]
fn conexao_duplicada_atualiza_peso_sem_duplicar() -> Result<(), ConectaStoreError> {
    let mut graph = graph_with_client_and_product()?;
    graph.connect(
        NodeId::Client(1),
        NodeId::Product(10),
        RelationType::Interest,
        0.4f64.to_bits(),
    )?;
    graph.connect(
        NodeId::Client(1),
        NodeId::Product(10),
        RelationType::Interest,
        0.9f64.to_bits(),
    )?;
    let outgoing = graph.outgoing(NodeId::Client(1))?;
    let incoming = graph.incoming(NodeId::Product(10))?;
    assert_eq!(outgoing.len(), 1);
    assert_eq!(incoming.len(), 1);
    assert_eq!(f64::from_bits(outgoing[0].weight_bits), 0.9);
    assert_eq!(f64::from_bits(incoming[0].weight_bits), 0.9);
    Ok(())
}

#[test]
fn aceita_limites_do_intervalo_de_peso() -> Result<(), ConectaStoreError> {
    for weight in [0.0, -0.0, 1.0, 0.5] {
        let mut graph = graph_with_client_and_product()?;
        graph.connect(
            NodeId::Client(1),
            NodeId::Product(10),
            RelationType::Rating,
            f64::to_bits(weight),
        )?;
        assert_eq!(graph.edge_count(), 1);
    }
    Ok(())
}

#[test]
fn rejeita_relacao_em_sentido_ou_tipo_errado() -> Result<(), ConectaStoreError> {
    let mut graph = graph_with_client_and_product()?;
    graph.add_node(Node::Product(Product {
        id: 11,
        name: "Mouse".to_string(),
        price_bits: 10.0f64.to_bits(),
        available: true,
    }))?;
    assert_eq!(
        graph.connect(NodeId::Product(10), NodeId::Product(10), RelationType::Similarity, 1.0f64.to_bits()),
        Err(ConectaStoreError::InvalidRelationship { from: NodeId::Product(10), to: NodeId::Product(10) })
    );
    assert_eq!(
        graph.connect(NodeId::Product(10), NodeId::Client(1), RelationType::BelongsToCategory, 1.0f64.to_bits()),
        Err(ConectaStoreError::InvalidRelationship { from: NodeId::Product(10), to: NodeId::Client(1) })
    );
    graph.connect(NodeId::Product(10), NodeId::Product(11), RelationType::Similarity, 1.0f64.to_bits())?;
    assert_eq!(graph.edge_count(), 1);
    Ok(())
}

#[test]
fn vertice_nao_encontrado_antes_de_peso_invalido() -> Result<(), ConectaStoreError> {
    let mut graph = graph_with_client_and_product()?;
    let result = graph.connect(
        NodeId::Client(1),
        NodeId::Product(77),
        RelationType::Purchase,
        f64::NAN.to_bits(),
    );
    assert_eq!(result, Err(ConectaStoreError::NodeNotFound(NodeId::Product(77))));
    Ok(())
}

#[test]
fn duplica_vertice_e_rejeitado_sem_alterar_o_grafo() -> Result<(), ConectaStoreError> {
    let mut graph = graph_with_client_and_product()?;
    let result = graph.add_node(Node::Client(Client { id: 1, name: "Outra".to_string() }));
    assert_eq!(result, Err(ConectaStoreError::NodeAlreadyExists(NodeId::Client(1))));
    assert_eq!(graph.node_count(), 2);
    match graph.node(NodeId::Client(1))? {
        Node::Client(client) => assert_eq!(client.name, "Ana"),
        _ => panic!("wrong kind"),
    }
    assert!(graph.contains(NodeId::Product(10)));
    assert!(!graph.contains(NodeId::Category(10)));
    Ok(())
}
