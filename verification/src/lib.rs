//! Codec and itemization layer for the line-oriented multi-valued logic-table
//! text format consumed by an external combinational-logic minimizer.
//!
//! The library covers the bidirectional mapping between in-memory structured
//! data and the table text: ternary-valued truth rows ([`pla_binary::PlaBinary`],
//! [`pla::PLA`]), CNF clause sets bridged through De Morgan inversion
//! ([`cnf`]), and matrices of optional categorical value-sets encoded one-hot
//! over per-column vocabularies ([`itemizer::Itemizer`], [`multi_compress`],
//! [`multi_reduce`]). The minimizer itself is an opaque external program; the
//! caller runs it on the encoded text and hands its output back to the
//! decoders here.

pub mod errors;
pub mod itemizer;
pub mod cnf;
pub mod multi;
pub mod multi_compress;
pub mod multi_reduce;
pub mod pla;
pub mod pla_binary;
pub mod ternary;
pub mod text;
