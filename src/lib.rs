//! Silent threshold encryption: configuration, an algebraic capability layer
//! over pairing-friendly groups, KZG commitments, Lagrange bases over radix-2
//! domains and a keystream-based payload encapsulation.

pub mod backend;
pub mod config;
pub mod errors;
pub mod kzg;
pub mod lagrange;
pub mod poly;
pub mod protocol;
pub mod sym_enc;
pub mod transparent;
