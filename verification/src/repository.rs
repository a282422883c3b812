//! The store facade: registration, typed lookups and relations over the graph.

use vstd::prelude::*;

use crate::binary64::{is_valid_price, valid_price};
use crate::error::ConectaStoreError;
use crate::graph::{Graph, GraphView};
use crate::models::{Category, Client, Node, NodeId, NodeView, Product, RelationType};

verus! {

/// Centralises registrations, lookups and connections of the store.
pub struct StoreRepository {
    graph: Graph,
}

impl Default for StoreRepository {
    /// A repository holding an empty graph.
    fn default() -> (r: Self)
        ensures
            r.wf(),
            r@ == GraphView::empty(),
    {
        StoreRepository::new()
    }
}

impl View for StoreRepository {
    type V = GraphView;

    closed spec fn view(&self) -> GraphView {
        self.graph@
    }
}

impl StoreRepository {
    /// The invariant of every repository value this library hands out.
    pub closed spec fn wf(&self) -> bool {
        self.graph.wf()
    }

    /// A repository's graph is well formed.
    pub proof fn lemma_well_formed(&self)
        requires
            self.wf(),
        ensures
            self@.well_formed(),
    {
    }

    /// A repository holding an empty graph.
    pub fn new() -> (r: Self)
        ensures
            r.wf(),
            r@ == GraphView::empty(),
    {
        StoreRepository { graph: Graph::new() }
    }

    /// Read-only access to the graph for queries.
    pub fn graph(&self) -> (g: &Graph)
        requires
            self.wf(),
        ensures
            g.wf(),
            g@ == self@,
    {
        &self.graph
    }

    /// Registers a client.
    pub fn add_client(&mut self, id: u64, name: &str) -> (r: Result<(), ConectaStoreError>)
        requires
            old(self).wf(),
        ensures
            final(self).wf(),
            ({
                let n = NodeView::Client { id, name: name@ };
                match r {
                    Ok(()) => !old(self)@.contains(n.id()) && final(self)@ == old(self)@.insert_node(n),
                    Err(e) => old(self)@.contains(n.id()) && e == ConectaStoreError::NodeAlreadyExists(n.id())
                        && final(self)@ == old(self)@,
                }
            }),
    {
        self.graph.add_node(Node::Client(Client { id, name: name.to_owned() }))
    }

    /// Registers a product, refusing a price that is negative, infinite or NaN.
    pub fn add_product(&mut self, id: u64, name: &str, price_bits: u64, available: bool) -> (r: Result<(), ConectaStoreError>)
        requires
            old(self).wf(),
        ensures
            final(self).wf(),
            ({
                let n = NodeView::Product { id, name: name@, price_bits, available };
                match r {
                    Ok(()) => is_valid_price(price_bits) && !old(self)@.contains(n.id())
                        && final(self)@ == old(self)@.insert_node(n),
                    Err(e) => final(self)@ == old(self)@ && if !is_valid_price(price_bits) {
                        e == ConectaStoreError::InvalidPrice(price_bits)
                    } else {
                        old(self)@.contains(n.id()) && e == ConectaStoreError::NodeAlreadyExists(n.id())
                    },
                }
            }),
    {
        if !valid_price(price_bits) {
            return Err(ConectaStoreError::InvalidPrice(price_bits));
        }
        self.graph.add_node(Node::Product(Product { id, name: name.to_owned(), price_bits, available }))
    }

    /// Registers a category.
    pub fn add_category(&mut self, id: u64, name: &str) -> (r: Result<(), ConectaStoreError>)
        requires
            old(self).wf(),
        ensures
            final(self).wf(),
            ({
                let n = NodeView::Category { id, name: name@ };
                match r {
                    Ok(()) => !old(self)@.contains(n.id()) && final(self)@ == old(self)@.insert_node(n),
                    Err(e) => old(self)@.contains(n.id()) && e == ConectaStoreError::NodeAlreadyExists(n.id())
                        && final(self)@ == old(self)@,
                }
            }),
    {
        self.graph.add_node(Node::Category(Category { id, name: name.to_owned() }))
    }

    /// The product with this id.
    pub fn product(&self, id: u64) -> (r: Result<&Product, ConectaStoreError>)
        requires
            self.wf(),
        ensures
            match r {
                Ok(p) => self@.contains(NodeId::Product(id)) && self@.nodes[NodeId::Product(id)] == (Node::Product(*p))@,
                Err(e) => !self@.contains(NodeId::Product(id)) && e == ConectaStoreError::NodeNotFound(NodeId::Product(id)),
            },
    {
        match self.graph.node(NodeId::Product(id))? {
            Node::Product(product) => Ok(product),
            _ => Err(ConectaStoreError::NodeNotFound(NodeId::Product(id))),
        }
    }

    /// The client with this id.
    pub fn client(&self, id: u64) -> (r: Result<&Client, ConectaStoreError>)
        requires
            self.wf(),
        ensures
            match r {
                Ok(c) => self@.contains(NodeId::Client(id)) && self@.nodes[NodeId::Client(id)] == (Node::Client(*c))@,
                Err(e) => !self@.contains(NodeId::Client(id)) && e == ConectaStoreError::NodeNotFound(NodeId::Client(id)),
            },
    {
        match self.graph.node(NodeId::Client(id))? {
            Node::Client(client) => Ok(client),
            _ => Err(ConectaStoreError::NodeNotFound(NodeId::Client(id))),
        }
    }

    /// The category with this id.
    pub fn category(&self, id: u64) -> (r: Result<&Category, ConectaStoreError>)
        requires
            self.wf(),
        ensures
            match r {
                Ok(c) => self@.contains(NodeId::Category(id)) && self@.nodes[NodeId::Category(id)] == (Node::Category(*c))@,
                Err(e) => !self@.contains(NodeId::Category(id)) && e == ConectaStoreError::NodeNotFound(NodeId::Category(id)),
            },
    {
        match self.graph.node(NodeId::Category(id))? {
            Node::Category(category) => Ok(category),
            _ => Err(ConectaStoreError::NodeNotFound(NodeId::Category(id))),
        }
    }

    /// Records a relation through the graph's validation.
    pub fn connect(&mut self, from: NodeId, to: NodeId, relation: RelationType, weight_bits: u64) -> (r: Result<(), ConectaStoreError>)
        requires
            old(self).wf(),
        ensures
            final(self).wf(),
            match r {
                Ok(()) => old(self)@.connect_error(from, to, relation, weight_bits) is None
                    && final(self)@ == old(self)@.connect_edges(from, to, relation, weight_bits),
                Err(e) => old(self)@.connect_error(from, to, relation, weight_bits) == Some(e)
                    && final(self)@ == old(self)@,
            },
    {
        self.graph.connect(from, to, relation, weight_bits)
    }
}

} // verus!
