//! CENNZnut: a compact, versioned delegation token that grants its bearer
//! permission to call chosen runtime modules, methods and smart contracts.
//!
//! The token has a fixed binary layout. This crate encodes and decodes it, and
//! resolves a prospective call against the grants it holds.
//!
//! Method grants may carry constraint programs, which an interpreter outside
//! this crate reads and runs. Decoding hands back the programs it read so that
//! the caller can have each judged and then `settle` the result; validating a
//! runtime call takes the interpreter as a closure.
mod cennznut;
mod error;
pub mod names;
mod parsed;
pub mod v0;
mod validation;
pub mod wire;

pub use crate::cennznut::CENNZnut;
pub use crate::error::DecodeError;
pub use crate::parsed::Parsed;
pub use crate::names::{
    ContractAddress, MethodName, ModuleName, CONTRACT_WILDCARD, WILDCARD,
};
pub use crate::validation::{
    decide_constraints, ContractDomain, Interpretation, RuntimeDomain, ValidationErr,
};
pub use crate::v0::CENNZnutV0;
