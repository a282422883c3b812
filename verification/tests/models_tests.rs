use megastore::binary64::{finite, in_unit_interval, less_or_equal, less_than, nan, total_order_key, valid_price};
use megastore::text::numbered;
use megastore::{Category, Client, ConectaStoreError, Edge, Node, NodeId, Product, RecommendationConfig, RelationType};

#[test]
fn rotulos_dos_vertices() {
    assert_eq!(NodeId::Client(1).label(), "cliente:1");
    assert_eq!(NodeId::Product(1024).label(), "produto:1024");
    assert_eq!(NodeId::Category(0).label(), "categoria:0");
    assert_eq!(NodeId::Client(u64::MAX).label(), format!("cliente:{}", u64::MAX));
    assert_eq!(numbered("Produto ", 907), "Produto 907");
}

#[test]
fn fatores_e_descricoes_das_relacoes() {
    let cases = [
        (RelationType::Purchase, 1.00, "compras em comum"),
        (RelationType::Interest, 0.80, "interesse relacionado"),
        (RelationType::Rating, 0.90, "avaliacao relacionada"),
        (RelationType::BelongsToCategory, 0.60, "mesma categoria"),
        (RelationType::Similarity, 1.00, "produto similar"),
    ];
    for (relation, factor, text) in cases {
        assert_eq!(f64::from_bits(relation.score_factor()), factor);
        assert_eq!(relation.description(), text);
    }
}

#[test]
fn identificador_do_vertice() {
    let client = Node::Client(Client { id: 3, name: "Ana".to_string() });
    let product = Node::Product(Product { id: 3, name: "Mouse".to_string(), price_bits: 1.0f64.to_bits(), available: true });
    let category = Node::Category(Category { id: 3, name: "Tecnologia".to_string() });
    assert_eq!(client.id(), NodeId::Client(3));
    assert_eq!(product.id(), NodeId::Product(3));
    assert_eq!(category.id(), NodeId::Category(3));
}

#[test]
fn configuracao_padrao() {
    let config = RecommendationConfig::default();
    assert_eq!(config.max_depth, 3);
    assert_eq!(config.limit, 5);
    assert_eq!(f64::from_bits(config.distance_decay_bits), 0.85);
}

#[test]
fn comparacoes_binary64_seguem_f64() {
    let values = [
        0.0, -0.0, 1.0, -1.0, 0.5, 1.5, 1e-310, -1e-310, f64::INFINITY, f64::NEG_INFINITY, f64::NAN,
        -f64::NAN, f64::MAX, f64::MIN, 0.85, 0.9,
    ];
    for a in values {
        assert_eq!(finite(a.to_bits()), a.is_finite());
        assert_eq!(nan(a.to_bits()), a.is_nan());
        assert_eq!(in_unit_interval(a.to_bits()), a.is_finite() && (0.0..=1.0).contains(&a));
        assert_eq!(valid_price(a.to_bits()), a.is_finite() && !(a < 0.0));
        for b in values {
            assert_eq!(less_than(a.to_bits(), b.to_bits()), a < b, "{a} < {b}");
            assert_eq!(less_or_equal(a.to_bits(), b.to_bits()), a <= b, "{a} <= {b}");
            assert_eq!(
                total_order_key(a.to_bits()).cmp(&total_order_key(b.to_bits())),
                a.total_cmp(&b),
                "{a} total {b}"
            );
        }
    }
}

#[test]
fn mensagens_dos_erros() {
    let not_found = ConectaStoreError::NodeNotFound(NodeId::Client(99));
    assert_eq!(not_found.value_bits(), None);
    assert_eq!(not_found.message(""), "vertice nao encontrado: cliente:99");
    assert_eq!(
        ConectaStoreError::NodeAlreadyExists(NodeId::Product(1)).message(""),
        "vertice ja cadastrado: produto:1"
    );
    assert_eq!(
        ConectaStoreError::InvalidRelationship { from: NodeId::Category(2), to: NodeId::Client(3) }.message(""),
        "relacionamento invalido entre categoria:2 e cliente:3"
    );
    let weight = ConectaStoreError::InvalidWeight(1.1f64.to_bits());
    assert_eq!(weight.value_bits(), Some(1.1f64.to_bits()));
    let number = f64::from_bits(weight.value_bits().unwrap()).to_string();
    assert_eq!(weight.message(&number), "peso invalido: 1.1");
    let price = ConectaStoreError::InvalidPrice((-5.0f64).to_bits());
    let number = f64::from_bits(price.value_bits().unwrap()).to_string();
    assert_eq!(price.message(&number), "preco invalido: -5");
    assert_eq!(ConectaStoreError::InvalidLimit.message("7"), "o limite deve ser maior que zero");
    assert_eq!(ConectaStoreError::InvalidDepth.message(""), "a profundidade deve ser maior que zero");
}

#[test]
fn igualdade_compara_valores_binary64() {
    let zero = Edge { destination: NodeId::Product(1), relation: RelationType::Similarity, weight_bits: 0.0f64.to_bits() };
    let negative_zero = Edge { weight_bits: (-0.0f64).to_bits(), ..zero };
    assert_eq!(zero, negative_zero);
    let nan_weight = Edge { weight_bits: f64::NAN.to_bits(), ..zero };
    assert_ne!(nan_weight, nan_weight);
    assert_ne!(zero, Edge { relation: RelationType::Purchase, ..zero });

    let nan_price = ConectaStoreError::InvalidPrice(f64::NAN.to_bits());
    assert_ne!(nan_price, nan_price);
    assert_eq!(ConectaStoreError::InvalidWeight(0.0f64.to_bits()), ConectaStoreError::InvalidWeight((-0.0f64).to_bits()));
    assert_ne!(ConectaStoreError::InvalidWeight(1.5f64.to_bits()), ConectaStoreError::InvalidPrice(1.5f64.to_bits()));
    assert_eq!(ConectaStoreError::NodeNotFound(NodeId::Client(1)), ConectaStoreError::NodeNotFound(NodeId::Client(1)));
    assert_ne!(ConectaStoreError::InvalidLimit, ConectaStoreError::InvalidDepth);

    let a = Product { id: 1, name: "Mouse".to_string(), price_bits: 0.0f64.to_bits(), available: true };
    let b = Product { price_bits: (-0.0f64).to_bits(), ..a.clone() };
    assert_eq!(a, b);
    assert_eq!(Node::Product(a.clone()), Node::Product(b));
    assert_ne!(a, Product { name: "Teclado".to_string(), ..a.clone() });

    let r = megastore::Recommendation {
        product_id: 2,
        name: "A".to_string(),
        category: "C".to_string(),
        score_bits: f64::NAN.to_bits(),
        reason: "produto similar".to_string(),
    };
    assert_ne!(r, r.clone());
    let s = megastore::Recommendation { score_bits: 0.5f64.to_bits(), ..r.clone() };
    assert_eq!(s, s.clone());
}
