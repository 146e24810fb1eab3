//! The token under its version tag.
use vstd::prelude::*;

use crate::error::DecodeError;
use crate::names::ContractAddress;
use crate::parsed::{blobs_view, Parsed};
use crate::v0::{
    contract_decision, encode_token, parse_token, parse_token_prefix, runtime_decision, CENNZnutV0,
};
use crate::validation::{ContractDomain, Interpretation, RuntimeDomain, ValidationErr};

verus! {

/// A token of some version of the layout.
#[derive(Clone, Debug, PartialEq, Eq)]
pub enum CENNZnut {
    V0(CENNZnutV0),
}

impl core::convert::TryFrom<CENNZnut> for CENNZnutV0 {
    type Error = DecodeError;

    fn try_from(v: CENNZnut) -> (r: Result<CENNZnutV0, DecodeError>)
        ensures
            match v {
                CENNZnut::V0(inner) => r == Ok::<CENNZnutV0, DecodeError>(inner),
            },
    {
        match v {
            CENNZnut::V0(inner) => Ok(inner),
        }
    }
}

impl vstd::std_specs::convert::TryFromSpecImpl<CENNZnut> for CENNZnutV0 {
    open spec fn obeys_try_from_spec() -> bool {
        true
    }

    open spec fn try_from_spec(v: CENNZnut) -> Result<CENNZnutV0, DecodeError> {
        match v {
            CENNZnut::V0(inner) => Ok(inner),
        }
    }
}

impl CENNZnut {
    /// The encoding of this token (empty when its version cannot carry it).
    pub fn encode(&self) -> (r: Vec<u8>)
        ensures
            match self {
                CENNZnut::V0(t) => r@ == encode_token(t@),
            },
    {
        match self {
            CENNZnut::V0(inner) => inner.encode(),
        }
    }

    /// Decodes a token from the start of `input` by its version tag; only
    /// version 0 is known, and any other tag fails with `UnsupportedVersion`.
    pub fn decode(input: &[u8]) -> (r: Parsed<CENNZnut>)
        ensures
            blobs_view(r.constraints@) == parse_token(input@).1,
            match parse_token(input@).0 {
                Ok(t) => r.result matches Ok(CENNZnut::V0(x)) && x@ == t,
                Err(e) => r.result == Err::<CENNZnut, DecodeError>(e),
            },
    {
        let parsed = CENNZnutV0::decode(input);
        let result = match parsed.result {
            Ok(t) => Ok(CENNZnut::V0(t)),
            Err(e) => Err(e),
        };
        Parsed { result, constraints: parsed.constraints }
    }

    /// Decodes a token from the start of `input` by its version tag and tells
    /// how many bytes it takes; bytes after it are left alone.
    pub fn decode_prefix(input: &[u8]) -> (r: Parsed<(CENNZnut, usize)>)
        ensures
            blobs_view(r.constraints@) == parse_token_prefix(input@).1,
            match parse_token_prefix(input@).0 {
                Ok((t, end)) => r.result matches Ok((CENNZnut::V0(x), n)) && x@ == t && n == end,
                Err(e) => r.result == Err::<(CENNZnut, usize), DecodeError>(e),
            },
    {
        let parsed = CENNZnutV0::decode_prefix(input);
        let result = match parsed.result {
            Ok((t, n)) => Ok((CENNZnut::V0(t), n)),
            Err(e) => Err(e),
        };
        Parsed { result, constraints: parsed.constraints }
    }

    /// Decides a runtime call of `method_name` in `module_name` under the
    /// token's own version.
    pub fn validate_runtime_call<F: FnOnce(&[u8]) -> Interpretation>(
        &self,
        module_name: &str,
        method_name: &str,
        interpret: F,
    ) -> (r: Result<(), ValidationErr<RuntimeDomain>>)
        requires
            forall|c: &[u8]| interpret.requires((c,)),
        ensures
            match self {
                CENNZnut::V0(t) => runtime_decision(t@, module_name@, method_name@, interpret, r),
            },
    {
        match self {
            CENNZnut::V0(inner) => inner.validate_module(module_name, method_name, interpret),
        }
    }

    /// Decides a call of the contract at `contract_address` under the token's
    /// own version.
    pub fn validate_contract_call(&self, contract_address: &ContractAddress) -> (r: Result<
        (),
        ValidationErr<ContractDomain>,
    >)
        ensures
            match self {
                CENNZnut::V0(t) => r == contract_decision(t@, contract_address@),
            },
    {
        match self {
            CENNZnut::V0(inner) => inner.validate_contract(*contract_address),
        }
    }
}

} // verus!
