//! The small fixed store of the demonstration program.

use vstd::prelude::*;

use crate::binary64::ONE_BITS;
use crate::error::ConectaStoreError;
use crate::graph::GraphView;
use crate::models::{NodeId, NodeView, RelationType};
use crate::repository::StoreRepository;

verus! {

/// Bit pattern of `3500.0`.
pub const NOTEBOOK_PRICE_BITS: u64 = 0x40AB_5800_0000_0000;

/// Bit pattern of `120.0`.
pub const MOUSE_PRICE_BITS: u64 = 0x405E_0000_0000_0000;

/// Bit pattern of `280.0`.
pub const KEYBOARD_PRICE_BITS: u64 = 0x4071_8000_0000_0000;

/// Bit pattern of `900.0`.
pub const MONITOR_PRICE_BITS: u64 = 0x408C_2000_0000_0000;

/// Bit pattern of `0.8`.
pub const EIGHT_TENTHS_BITS: u64 = 0x3FE9_9999_9999_999A;

/// Bit pattern of `0.9`.
pub const NINE_TENTHS_BITS: u64 = 0x3FEC_CCCC_CCCC_CCCD;

/// The vertices of the demonstration store, in registration order: two
/// clients, two categories and four products.
pub open spec fn demo_vertices() -> GraphView {
    GraphView::empty()
        .insert_node(NodeView::Client { id: 1, name: "Ana"@ })
        .insert_node(NodeView::Client { id: 2, name: "Bruno"@ })
        .insert_node(NodeView::Category { id: 10, name: "Informatica"@ })
        .insert_node(NodeView::Category { id: 20, name: "Acessorios"@ })
        .insert_node(NodeView::Product { id: 101, name: "Notebook"@, price_bits: NOTEBOOK_PRICE_BITS, available: true })
        .insert_node(NodeView::Product { id: 102, name: "Mouse sem fio"@, price_bits: MOUSE_PRICE_BITS, available: true })
        .insert_node(NodeView::Product { id: 103, name: "Teclado mecanico"@, price_bits: KEYBOARD_PRICE_BITS, available: true })
        .insert_node(NodeView::Product { id: 104, name: "Monitor"@, price_bits: MONITOR_PRICE_BITS, available: true })
}

/// The demonstration store: each product in its category, the purchases and
/// interest of the clients, and one similarity between two products.
pub open spec fn demo_store() -> GraphView {
    demo_vertices()
        .connect_edges(NodeId::Product(101), NodeId::Category(10), RelationType::BelongsToCategory, ONE_BITS)
        .connect_edges(NodeId::Product(102), NodeId::Category(20), RelationType::BelongsToCategory, ONE_BITS)
        .connect_edges(NodeId::Product(103), NodeId::Category(20), RelationType::BelongsToCategory, ONE_BITS)
        .connect_edges(NodeId::Product(104), NodeId::Category(10), RelationType::BelongsToCategory, ONE_BITS)
        .connect_edges(NodeId::Client(1), NodeId::Product(101), RelationType::Purchase, ONE_BITS)
        .connect_edges(NodeId::Client(1), NodeId::Product(102), RelationType::Interest, EIGHT_TENTHS_BITS)
        .connect_edges(NodeId::Client(2), NodeId::Product(101), RelationType::Purchase, ONE_BITS)
        .connect_edges(NodeId::Client(2), NodeId::Product(103), RelationType::Purchase, NINE_TENTHS_BITS)
        .connect_edges(NodeId::Product(101), NodeId::Product(104), RelationType::Similarity, NINE_TENTHS_BITS)
}

/// Builds the demonstration store. Every registration and relation is valid,
/// so the build always succeeds.
pub fn build_demo_repository() -> (r: Result<StoreRepository, ConectaStoreError>)
    ensures
        match r {
            Ok(repository) => repository.wf() && repository@ == demo_store(),
            Err(_) => false,
        },
{
    let mut repository = StoreRepository::new();
    repository.add_client(1, "Ana")?;
    repository.add_client(2, "Bruno")?;
    repository.add_category(10, "Informatica")?;
    repository.add_category(20, "Acessorios")?;
    repository.add_product(101, "Notebook", NOTEBOOK_PRICE_BITS, true)?;
    repository.add_product(102, "Mouse sem fio", MOUSE_PRICE_BITS, true)?;
    repository.add_product(103, "Teclado mecanico", KEYBOARD_PRICE_BITS, true)?;
    repository.add_product(104, "Monitor", MONITOR_PRICE_BITS, true)?;

    repository.connect(NodeId::Product(101), NodeId::Category(10), RelationType::BelongsToCategory, ONE_BITS)?;
    repository.connect(NodeId::Product(102), NodeId::Category(20), RelationType::BelongsToCategory, ONE_BITS)?;
    repository.connect(NodeId::Product(103), NodeId::Category(20), RelationType::BelongsToCategory, ONE_BITS)?;
    repository.connect(NodeId::Product(104), NodeId::Category(10), RelationType::BelongsToCategory, ONE_BITS)?;
    repository.connect(NodeId::Client(1), NodeId::Product(101), RelationType::Purchase, ONE_BITS)?;
    repository.connect(NodeId::Client(1), NodeId::Product(102), RelationType::Interest, EIGHT_TENTHS_BITS)?;
    repository.connect(NodeId::Client(2), NodeId::Product(101), RelationType::Purchase, ONE_BITS)?;
    repository.connect(NodeId::Client(2), NodeId::Product(103), RelationType::Purchase, NINE_TENTHS_BITS)?;
    repository.connect(NodeId::Product(101), NodeId::Product(104), RelationType::Similarity, NINE_TENTHS_BITS)?;
    Ok(repository)
}

} // verus!
