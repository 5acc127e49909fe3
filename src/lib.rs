//! Dependency graph resolution for layered image builds: features declare the
//! items they provide and require, and a layer's features are ordered,
//! checked for cycles and conflicting providers, and validated against what
//! the layer and its parents hold.

pub mod fate;
pub mod feature;
pub mod graph;
pub mod item;
pub mod order;
pub mod phase;
pub mod rpm;
pub mod text;
pub mod unit_file;
pub mod validator;
