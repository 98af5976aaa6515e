//! The per-declaration function IR: its pools, canonical byte encoding and
//! structural verifier.

pub mod ids;
pub mod flags;
pub mod op;
pub mod value;
pub mod alias;
pub mod inst;
pub mod place;
pub mod region;
pub mod site;
pub mod diag;
pub mod scope;
pub mod block;
pub mod constpool;
pub mod decl;
pub mod encode;
pub mod canon;
pub mod verify;
pub mod dump;
