//! Entities, identifiers and relation kinds of the store graph.

use vstd::prelude::*;
use vstd::std_specs::cmp::PartialEqSpecImpl;

use crate::binary64::{equal, ieee_eq, ONE_BITS};

verus! {

/// Identifies a vertex: its kind and its numeric id within that kind.
#[derive(Debug, Clone, Copy, PartialEq, Eq, Hash, PartialOrd, Ord, Structural)]
pub enum NodeId {
    Client(u64),
    Product(u64),
    Category(u64),
}

/// A registered client.
#[derive(Debug, Clone, PartialEq)]
pub struct Client {
    pub id: u64,
    pub name: String,
}

/// A product. `price_bits` is the bit pattern of the binary64 price.
#[derive(Debug, Clone)]
pub struct Product {
    pub id: u64,
    pub name: String,
    pub price_bits: u64,
    pub available: bool,
}

/// Two products are equal when their fields are, prices compared as binary64 values.
impl PartialEq for Product {
    fn eq(&self, other: &Self) -> (r: bool) {
        self.id == other.id && self.name == other.name && equal(self.price_bits, other.price_bits)
            && self.available == other.available
    }
}

impl PartialEqSpecImpl for Product {
    open spec fn obeys_eq_spec() -> bool {
        true
    }

    open spec fn eq_spec(&self, other: &Self) -> bool {
        self.id == other.id && self.name@ == other.name@ && ieee_eq(self.price_bits, other.price_bits)
            && self.available == other.available
    }
}

/// A product category.
#[derive(Debug, Clone, PartialEq)]
pub struct Category {
    pub id: u64,
    pub name: String,
}

/// A vertex of the graph.
#[derive(Debug, Clone, PartialEq)]
pub enum Node {
    Client(Client),
    Product(Product),
    Category(Category),
}

/// What a vertex holds, with names as character sequences.
pub enum NodeView {
    Client { id: u64, name: Seq<char> },
    Product { id: u64, name: Seq<char>, price_bits: u64, available: bool },
    Category { id: u64, name: Seq<char> },
}

impl NodeView {
    /// The identifier of the vertex.
    pub open spec fn id(self) -> NodeId {
        match self {
            NodeView::Client { id, .. } => NodeId::Client(id),
            NodeView::Product { id, .. } => NodeId::Product(id),
            NodeView::Category { id, .. } => NodeId::Category(id),
        }
    }

    /// The name of the vertex.
    pub open spec fn name(self) -> Seq<char> {
        match self {
            NodeView::Client { name, .. } => name,
            NodeView::Product { name, .. } => name,
            NodeView::Category { name, .. } => name,
        }
    }
}

impl View for Node {
    type V = NodeView;

    open spec fn view(&self) -> NodeView {
        match self {
            Node::Client(c) => NodeView::Client { id: c.id, name: c.name@ },
            Node::Product(p) => NodeView::Product {
                id: p.id,
                name: p.name@,
                price_bits: p.price_bits,
                available: p.available,
            },
            Node::Category(c) => NodeView::Category { id: c.id, name: c.name@ },
        }
    }
}

impl Node {
    /// The identifier built from the vertex kind and its id.
    pub fn id(&self) -> (r: NodeId)
        ensures
            r == self@.id(),
    {
        match self {
            Node::Client(value) => NodeId::Client(value.id),
            Node::Product(value) => NodeId::Product(value.id),
            Node::Category(value) => NodeId::Category(value.id),
        }
    }
}

/// The kind of a relation between two vertices.
#[derive(Debug, Clone, Copy, PartialEq, Eq, Hash, Structural)]
pub enum RelationType {
    Purchase,
    Interest,
    Rating,
    BelongsToCategory,
    Similarity,
}

/// The bit pattern of the factor by which a relation weighs a path score.
pub open spec fn factor_bits(relation: RelationType) -> u64 {
    match relation {
        RelationType::Purchase => ONE_BITS,
        RelationType::Interest => 0x3FE9_9999_9999_999A,  // 0.80
        RelationType::Rating => 0x3FEC_CCCC_CCCC_CCCD,  // 0.90
        RelationType::BelongsToCategory => 0x3FE3_3333_3333_3333,  // 0.60
        RelationType::Similarity => ONE_BITS,
    }
}

/// The text that explains a recommendation reached through a relation.
pub open spec fn describe(relation: RelationType) -> Seq<char> {
    match relation {
        RelationType::Purchase => "compras em comum"@,
        RelationType::Interest => "interesse relacionado"@,
        RelationType::Rating => "avaliacao relacionada"@,
        RelationType::BelongsToCategory => "mesma categoria"@,
        RelationType::Similarity => "produto similar"@,
    }
}

impl RelationType {
    /// The binary64 factor of the relation (1.00, 0.80, 0.90, 0.60 or 1.00),
    /// given by its bit pattern.
    pub fn score_factor(self) -> (r: u64)
        ensures
            r == factor_bits(self),
    {
        match self {
            RelationType::Purchase => ONE_BITS,
            RelationType::Interest => 0x3FE9_9999_9999_999A,
            RelationType::Rating => 0x3FEC_CCCC_CCCC_CCCD,
            RelationType::BelongsToCategory => 0x3FE3_3333_3333_3333,
            RelationType::Similarity => ONE_BITS,
        }
    }

    /// The reason shown to the user for a recommendation reached through the relation.
    pub fn description(self) -> (r: &'static str)
        ensures
            r@ == describe(self),
    {
        match self {
            RelationType::Purchase => "compras em comum",
            RelationType::Interest => "interesse relacionado",
            RelationType::Rating => "avaliacao relacionada",
            RelationType::BelongsToCategory => "mesma categoria",
            RelationType::Similarity => "produto similar",
        }
    }
}

/// A stored relation. `weight_bits` is the bit pattern of the binary64 weight.
#[derive(Debug, Clone, Copy)]
pub struct Edge {
    pub destination: NodeId,
    pub relation: RelationType,
    pub weight_bits: u64,
}

/// Two relations are equal when they join the same vertex through the same
/// relation with equal binary64 weights.
impl PartialEq for Edge {
    fn eq(&self, other: &Self) -> (r: bool) {
        self.destination == other.destination && self.relation == other.relation && equal(
            self.weight_bits,
            other.weight_bits,
        )
    }
}

impl PartialEqSpecImpl for Edge {
    open spec fn obeys_eq_spec() -> bool {
        true
    }

    open spec fn eq_spec(&self, other: &Self) -> bool {
        self.destination == other.destination && self.relation == other.relation && ieee_eq(
            self.weight_bits,
            other.weight_bits,
        )
    }
}

} // verus!
