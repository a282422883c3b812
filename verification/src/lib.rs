//! Graph-based product recommendation: clients, products and categories are
//! vertices; purchases, interests, ratings, category membership and product
//! similarity are directed, weighted edges.

pub mod benchmark;
pub mod binary64;
pub mod demo;
pub mod error;
pub mod graph;
pub mod laws;
pub mod models;
pub mod recommendation;
pub mod repository;
pub mod search;
pub mod text;

pub use error::ConectaStoreError;
pub use graph::Graph;
pub use models::{Category, Client, Edge, Node, NodeId, Product, RelationType};
pub use recommendation::{Recommendation, RecommendationConfig, RecommendationEngine};
pub use repository::StoreRepository;
