//! Domain errors shared by every layer, and the messages shown for them.

use vstd::prelude::*;

use vstd::std_specs::cmp::PartialEqSpecImpl;

use crate::binary64::{equal, ieee_eq};
use crate::models::NodeId;
use crate::text::label_of;

verus! {

/// The failures expected while building the graph and recommending.
/// `InvalidWeight` and `InvalidPrice` carry the bit pattern of the rejected
/// binary64 value.
#[derive(Debug, Clone, Copy)]
pub enum ConectaStoreError {
    NodeAlreadyExists(NodeId),
    NodeNotFound(NodeId),
    InvalidRelationship { from: NodeId, to: NodeId },
    InvalidWeight(u64),
    InvalidPrice(u64),
    InvalidLimit,
    InvalidDepth,
}

/// Two errors are equal when they are the same error, the carried weights
/// and prices compared as binary64 values.
impl PartialEq for ConectaStoreError {
    fn eq(&self, other: &Self) -> (r: bool) {
        match (self, other) {
            (ConectaStoreError::NodeAlreadyExists(a), ConectaStoreError::NodeAlreadyExists(b)) => a == b,
            (ConectaStoreError::NodeNotFound(a), ConectaStoreError::NodeNotFound(b)) => a == b,
            (
                ConectaStoreError::InvalidRelationship { from: a, to: b },
                ConectaStoreError::InvalidRelationship { from: c, to: d },
            ) => a == c && b == d,
            (ConectaStoreError::InvalidWeight(a), ConectaStoreError::InvalidWeight(b)) => equal(*a, *b),
            (ConectaStoreError::InvalidPrice(a), ConectaStoreError::InvalidPrice(b)) => equal(*a, *b),
            (ConectaStoreError::InvalidLimit, ConectaStoreError::InvalidLimit) => true,
            (ConectaStoreError::InvalidDepth, ConectaStoreError::InvalidDepth) => true,
            _ => false,
        }
    }
}

impl PartialEqSpecImpl for ConectaStoreError {
    open spec fn obeys_eq_spec() -> bool {
        true
    }

    open spec fn eq_spec(&self, other: &Self) -> bool {
        match (*self, *other) {
            (ConectaStoreError::InvalidWeight(a), ConectaStoreError::InvalidWeight(b)) => ieee_eq(a, b),
            (ConectaStoreError::InvalidPrice(a), ConectaStoreError::InvalidPrice(b)) => ieee_eq(a, b),
            _ => *self == *other,
        }
    }
}

/// The bit pattern of the binary64 value that an error carries, if any.
pub open spec fn carried_bits(e: ConectaStoreError) -> Option<u64> {
    match e {
        ConectaStoreError::InvalidWeight(bits) => Some(bits),
        ConectaStoreError::InvalidPrice(bits) => Some(bits),
        _ => None,
    }
}

/// The message of an error; `number` is the decimal text of the value it
/// carries, used by the errors that carry one.
pub open spec fn message_of(e: ConectaStoreError, number: Seq<char>) -> Seq<char> {
    match e {
        ConectaStoreError::NodeAlreadyExists(id) => "vertice ja cadastrado: "@ + label_of(id),
        ConectaStoreError::NodeNotFound(id) => "vertice nao encontrado: "@ + label_of(id),
        ConectaStoreError::InvalidRelationship { from, to } => "relacionamento invalido entre "@ + label_of(from)
            + " e "@ + label_of(to),
        ConectaStoreError::InvalidWeight(_) => "peso invalido: "@ + number,
        ConectaStoreError::InvalidPrice(_) => "preco invalido: "@ + number,
        ConectaStoreError::InvalidLimit => "o limite deve ser maior que zero"@,
        ConectaStoreError::InvalidDepth => "a profundidade deve ser maior que zero"@,
    }
}

impl ConectaStoreError {
    /// The bit pattern of the rejected weight or price, for the errors that carry one.
    pub fn value_bits(&self) -> (r: Option<u64>)
        ensures
            r == carried_bits(*self),
    {
        match self {
            ConectaStoreError::InvalidWeight(bits) => Some(*bits),
            ConectaStoreError::InvalidPrice(bits) => Some(*bits),
            _ => None,
        }
    }

    /// The message shown to users. `number` is the decimal text of the value
    /// given by `value_bits`; errors that carry no value ignore it.
    pub fn message(&self, number: &str) -> (r: String)
        ensures
            r@ == message_of(*self, number@),
    {
        match self {
            ConectaStoreError::NodeAlreadyExists(id) => {
                let mut text = "vertice ja cadastrado: ".to_owned();
                text.append(id.label().as_str());
                text
            },
            ConectaStoreError::NodeNotFound(id) => {
                let mut text = "vertice nao encontrado: ".to_owned();
                text.append(id.label().as_str());
                text
            },
            ConectaStoreError::InvalidRelationship { from, to } => {
                let mut text = "relacionamento invalido entre ".to_owned();
                text.append(from.label().as_str());
                text.append(" e ");
                text.append(to.label().as_str());
                text
            },
            ConectaStoreError::InvalidWeight(_) => {
                let mut text = "peso invalido: ".to_owned();
                text.append(number);
                text
            },
            ConectaStoreError::InvalidPrice(_) => {
                let mut text = "preco invalido: ".to_owned();
                text.append(number);
                text
            },
            ConectaStoreError::InvalidLimit => "o limite deve ser maior que zero".to_owned(),
            ConectaStoreError::InvalidDepth => "a profundidade deve ser maior que zero".to_owned(),
        }
    }
}

} // verus!
