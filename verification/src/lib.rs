//! Flattens a hierarchical hardware register-map description (peripherals
//! containing clusters and registers, registers containing bitfields, with
//! repeatable array groups) into a flat, insertion-ordered catalog mapping
//! dotted-path identifiers to block, register, or memory elements, with every
//! register's bit layout completed by synthesized reserved fields.

pub mod fields;
pub mod ident;
pub mod laws;
pub mod rdf;
pub mod registry;
pub mod svd;
pub mod visit;

pub use rdf::Rdf;
