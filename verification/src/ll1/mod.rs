//! Analyses that prepare a predictive parser: which symbols derive the empty
//! sequence, and which terminals can begin what a symbol derives.

pub mod first_sets;
pub mod graph;
pub mod nullable;

pub use first_sets::first;
pub use nullable::nullabes;
