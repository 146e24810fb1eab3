//! Version 0 of the token: an ordered list of module grants and an ordered
//! list of contract grants.
//!
//! Layout: the version tag `[0, 0]`; a byte holding the module count less one;
//! each module grant; a byte holding the contract count; each contract grant.
//! A token encodes only with 1 to 256 modules, at most 255 contracts, each
//! grant encodable, and at most 65535 bytes in all; otherwise its encoding is
//! empty.
pub mod contract;
pub mod method;
pub mod module;

use vstd::prelude::*;

use crate::error::DecodeError;
use crate::names::{
    is_wildcard_address, is_wildcard_name, lemma_resolve_exact, lemma_resolve_found, lemma_resolve_wild, resolve,
    same_address, same_text, wildcard_address, wildcard_name, ContractAddress, ModuleName,
};
use crate::parsed::{blobs_view, Parsed};
use crate::wire::{holds_at, lemma_holds_split, lemma_prefix_split, prefix_at};
use crate::v0::contract::{
    contract_bytes, lemma_contract_prefix, lemma_contract_round_trip, parse_contract, Contract, ContractView,
};
use crate::v0::method::{method_encodable, valid_method};
use crate::v0::module::{
    keys_of, lemma_module_prefix, lemma_module_round_trip, methods_blobs, module_bytes, module_encodable,
    parse_module, valid_module, Module, ModuleView,
};
use crate::validation::{
    constraints_decision, decide_constraints, ContractDomain, Interpretation, RuntimeDomain,
    ValidationErr,
};

verus! {

/// The most modules that one token can hold.
pub const MAX_MODULES: usize = 256;

/// The most methods that one module grant can hold.
pub const MAX_METHODS: usize = 128;

/// The most contracts that one token can hold.
pub const MAX_CONTRACTS: usize = 255;

/// The version tag of this layout.
pub const VERSION_BYTES: [u8; 2] = [0, 0];

/// The most bytes that an encoded token can take.
pub const MAX_CENNZNUT_BYTES: usize = 65535;

/// A version 0 token: module grants keyed by name and contract grants keyed by
/// address, each list in insertion order.
#[derive(Clone, Debug, PartialEq, Eq)]
pub struct CENNZnutV0 {
    pub modules: Vec<(ModuleName, Module)>,
    pub contracts: Vec<(ContractAddress, Contract)>,
}

/// A version 0 token as plain values.
pub struct TokenView {
    pub modules: Seq<(Seq<char>, ModuleView)>,
    pub contracts: Seq<(Seq<u8>, ContractView)>,
}

/// The view of keyed module grants.
pub open spec fn modules_view(ms: Seq<(ModuleName, Module)>) -> Seq<(Seq<char>, ModuleView)> {
    ms.map_values(|e: (ModuleName, Module)| (e.0@, e.1@))
}

/// The view of keyed contract grants.
pub open spec fn contracts_view(cs: Seq<(ContractAddress, Contract)>) -> Seq<
    (Seq<u8>, ContractView),
> {
    cs.map_values(|e: (ContractAddress, Contract)| (e.0@, e.1@))
}

/// The addresses that key contract grants.
pub open spec fn addresses_of(cs: Seq<(Seq<u8>, ContractView)>) -> Seq<Seq<u8>> {
    cs.map_values(|e: (Seq<u8>, ContractView)| e.0)
}

impl View for CENNZnutV0 {
    type V = TokenView;

    open spec fn view(&self) -> TokenView {
        TokenView {
            modules: modules_view(self.modules@),
            contracts: contracts_view(self.contracts@),
        }
    }
}

/// The bytes of module grants, one after another.
pub open spec fn modules_bytes(ms: Seq<(Seq<char>, ModuleView)>) -> Seq<u8>
    decreases ms.len(),
{
    if ms.len() == 0 {
        Seq::empty()
    } else {
        modules_bytes(ms.drop_last()) + module_bytes(ms.last().1)
    }
}

/// The bytes of contract grants, one after another.
pub open spec fn contracts_bytes(cs: Seq<(Seq<u8>, ContractView)>) -> Seq<u8>
    decreases cs.len(),
{
    if cs.len() == 0 {
        Seq::empty()
    } else {
        contracts_bytes(cs.drop_last()) + contract_bytes(cs.last().1)
    }
}

/// The bytes of a token whose counts fit the layout.
pub open spec fn token_bytes(t: TokenView) -> Seq<u8> {
    seq![0u8, 0u8, (t.modules.len() - 1) as u8] + modules_bytes(t.modules) + seq![
        t.contracts.len() as u8,
    ] + contracts_bytes(t.contracts)
}

/// Whether the layout can carry a token: 1 to 256 modules, at most 255
/// contracts, every module grant encodable, and at most 65535 bytes in all.
pub open spec fn token_encodable(t: TokenView) -> bool {
    &&& 1 <= t.modules.len() <= 256
    &&& t.contracts.len() <= 255
    &&& forall|i: int| 0 <= i < t.modules.len() ==> module_encodable(#[trigger] t.modules[i].1)
    &&& token_bytes(t).len() <= 65535
}

/// The encoding of a token: its bytes, or nothing when the layout cannot
/// carry it.
pub open spec fn encode_token(t: TokenView) -> Seq<u8> {
    if token_encodable(t) {
        token_bytes(t)
    } else {
        Seq::empty()
    }
}

/// Reads `n` module grants from `pos` on: the grants read (each keyed by its
/// name) and the position after them, or the first error; with the constraint
/// programs read before stopping.
pub open spec fn parse_modules(b: Seq<u8>, pos: int, n: nat) -> (
    Result<(Seq<(Seq<char>, ModuleView)>, int), DecodeError>,
    Seq<Seq<u8>>,
)
    decreases n,
{
    if n == 0 {
        (Ok((Seq::empty(), pos)), Seq::empty())
    } else {
        let (r, seen) = parse_modules(b, pos, (n - 1) as nat);
        match r {
            Err(e) => (Err(e), seen),
            Ok((ms, p)) => {
                let (r2, more) = parse_module(b, p);
                match r2 {
                    Err(e) => (Err(e), seen + more),
                    Ok((m, q)) => (Ok((ms.push((m.name, m)), q)), seen + more),
                }
            },
        }
    }
}

/// Reads `n` contract grants from `pos` on: the grants read (each keyed by its
/// address) and the position after them, or the first error.
pub open spec fn parse_contracts(b: Seq<u8>, pos: int, n: nat) -> Result<
    (Seq<(Seq<u8>, ContractView)>, int),
    DecodeError,
>
    decreases n,
{
    if n == 0 {
        Ok((Seq::empty(), pos))
    } else {
        match parse_contracts(b, pos, (n - 1) as nat) {
            Err(e) => Err(e),
            Ok((cs, p)) => match parse_contract(b, p) {
                Err(e) => Err(e),
                Ok((c, q)) => Ok((cs.push((c.address, c)), q)),
            },
        }
    }
}

/// Reads a token's body, which follows its version tag, at `pos`.
pub open spec fn parse_body(b: Seq<u8>, pos: int) -> (
    Result<(TokenView, int), DecodeError>,
    Seq<Seq<u8>>,
) {
    if b.len() < pos + 1 {
        (Err(DecodeError::ShortBuffer), Seq::empty())
    } else {
        let (r, seen) = parse_modules(b, pos + 1, (b[pos] + 1) as nat);
        match r {
            Err(e) => (Err(e), seen),
            Ok((modules, p)) => {
                if b.len() < p + 1 {
                    (Err(DecodeError::ShortBuffer), seen)
                } else {
                    match parse_contracts(b, p + 1, b[p] as nat) {
                        Err(e) => (Err(e), seen),
                        Ok((contracts, end)) => (
                            Ok((TokenView { modules, contracts }, end)),
                            seen,
                        ),
                    }
                }
            },
        }
    }
}

/// Reads a version 0 token from the start of `b`: the token, or the first
/// error; with the constraint programs read before stopping. Bytes after the
/// token are left alone.
pub open spec fn parse_token(b: Seq<u8>) -> (Result<TokenView, DecodeError>, Seq<Seq<u8>>) {
    let (r, seen) = parse_token_prefix(b);
    match r {
        Err(e) => (Err(e), seen),
        Ok((t, _)) => (Ok(t), seen),
    }
}

/// Reads a version 0 token from the start of `b`: the token and the number of
/// bytes it takes, or the first error; with the constraint programs read
/// before stopping.
pub open spec fn parse_token_prefix(b: Seq<u8>) -> (
    Result<(TokenView, int), DecodeError>,
    Seq<Seq<u8>>,
) {
    if b.len() < 2 {
        (Err(DecodeError::ShortBuffer), Seq::empty())
    } else if b[0] != 0 || b[1] != 0 {
        (Err(DecodeError::UnsupportedVersion), Seq::empty())
    } else {
        parse_body(b, 2)
    }
}

/// Whether `r` is the decision on a runtime call of `method` in `module`
/// under `t`, where `interpret` judges constraint programs: refused in the
/// module domain when no module grant covers the call, in the method domain
/// when no method grant of that module does, allowed when that method grant
/// has no constraints, and otherwise decided by what `interpret` returned for
/// its constraint program.
pub open spec fn runtime_decision<F: FnOnce(&[u8]) -> Interpretation>(
    t: TokenView,
    module: Seq<char>,
    method: Seq<char>,
    interpret: F,
    r: Result<(), ValidationErr<RuntimeDomain>>,
) -> bool {
    match resolve(keys_of(t.modules), module, wildcard_name()) {
        None => r == Err::<(), ValidationErr<RuntimeDomain>>(
            ValidationErr::NoPermission(RuntimeDomain::Module),
        ),
        Some(i) => match resolve(keys_of(t.modules[i].1.methods), method, wildcard_name()) {
            None => r == Err::<(), ValidationErr<RuntimeDomain>>(
                ValidationErr::NoPermission(RuntimeDomain::Method),
            ),
            Some(j) => match t.modules[i].1.methods[j].1.constraints {
                None => r == Ok::<(), ValidationErr<RuntimeDomain>>(()),
                Some(c) => exists|s: &[u8], v: Interpretation|
                    s@ == c && interpret.ensures((s,), v) && r == constraints_decision(v),
            },
        },
    }
}

/// The decision on a call of the contract at `address` under `t`: allowed
/// when a contract grant covers it, refused in the contract domain otherwise.
pub open spec fn contract_decision(t: TokenView, address: Seq<u8>) -> Result<
    (),
    ValidationErr<ContractDomain>,
> {
    match resolve(addresses_of(t.contracts), address, wildcard_address()) {
        Some(_) => Ok(()),
        None => Err(ValidationErr::NoPermission(ContractDomain::Contract)),
    }
}

/// The constraint programs of module grants, in order.
pub open spec fn modules_blobs(ms: Seq<(Seq<char>, ModuleView)>) -> Seq<Seq<u8>>
    decreases ms.len(),
{
    if ms.len() == 0 {
        Seq::empty()
    } else {
        modules_blobs(ms.drop_last()) + methods_blobs(ms.last().1.methods)
    }
}

/// Keyed module grants that read back from their bytes: each valid and keyed
/// by its own name.
pub open spec fn valid_modules(ms: Seq<(Seq<char>, ModuleView)>) -> bool {
    forall|i: int| 0 <= i < ms.len() ==> valid_module(#[trigger] ms[i].1) && ms[i].0 == ms[i].1.name
}

/// Keyed contract grants that read back from their bytes: each with a 32-byte
/// address and keyed by it.
pub open spec fn valid_contracts(cs: Seq<(Seq<u8>, ContractView)>) -> bool {
    forall|i: int|
        0 <= i < cs.len() ==> (#[trigger] cs[i].1).address.len() == 32 && cs[i].0 == cs[i].1.address
}

/// A token that reads back from its encoding: counts and size within the
/// layout's limits, every grant valid and keyed by its own name or address.
pub open spec fn valid_token(t: TokenView) -> bool {
    &&& 1 <= t.modules.len() <= 256
    &&& t.contracts.len() <= 255
    &&& valid_modules(t.modules)
    &&& valid_contracts(t.contracts)
    &&& token_bytes(t).len() <= 65535
}

proof fn lemma_modules_round_trip(ms: Seq<(Seq<char>, ModuleView)>, b: Seq<u8>, pos: int)
    requires
        valid_modules(ms),
        holds_at(b, pos, modules_bytes(ms)),
    ensures
        parse_modules(b, pos, ms.len()) == (
            Ok::<(Seq<(Seq<char>, ModuleView)>, int), DecodeError>(
                (ms, pos + modules_bytes(ms).len()),
            ),
            modules_blobs(ms),
        ),
    decreases ms.len(),
{
    if ms.len() > 0 {
        let init = ms.drop_last();
        let last = ms.last();
        lemma_holds_split(b, pos, modules_bytes(init), module_bytes(last.1));
        assert(valid_modules(init)) by {
            assert forall|i: int| 0 <= i < init.len() implies valid_module(#[trigger] init[i].1)
                && init[i].0 == init[i].1.name by {
                assert(init[i] == ms[i]);
            }
        }
        lemma_modules_round_trip(init, b, pos);
        assert(valid_module(ms[ms.len() - 1].1));
        lemma_module_round_trip(last.1, b, pos + modules_bytes(init).len());
        assert(init.push((last.1.name, last.1)) =~= ms);
    } else {
        assert(ms =~= Seq::<(Seq<char>, ModuleView)>::empty());
    }
}

proof fn lemma_contracts_round_trip(cs: Seq<(Seq<u8>, ContractView)>, b: Seq<u8>, pos: int)
    requires
        valid_contracts(cs),
        holds_at(b, pos, contracts_bytes(cs)),
    ensures
        parse_contracts(b, pos, cs.len()) == Ok::<(Seq<(Seq<u8>, ContractView)>, int), DecodeError>(
            (cs, pos + contracts_bytes(cs).len()),
        ),
    decreases cs.len(),
{
    if cs.len() > 0 {
        let init = cs.drop_last();
        let last = cs.last();
        lemma_holds_split(b, pos, contracts_bytes(init), contract_bytes(last.1));
        assert(valid_contracts(init)) by {
            assert forall|i: int| 0 <= i < init.len() implies (#[trigger] init[i].1).address.len()
                == 32 && init[i].0 == init[i].1.address by {
                assert(init[i] == cs[i]);
            }
        }
        lemma_contracts_round_trip(init, b, pos);
        assert(cs[cs.len() - 1].1.address.len() == 32);
        lemma_contract_round_trip(last.1, b, pos + contracts_bytes(init).len());
        assert(init.push((last.1.address, last.1)) =~= cs);
    } else {
        assert(cs =~= Seq::<(Seq<u8>, ContractView)>::empty());
    }
}

/// Round trip: a valid token encodes, and decoding its encoding gives the
/// token back, together with its constraint programs in order, so that once
/// the interpreter accepts each of them the decode settles on the token.
pub proof fn lemma_token_round_trip(t: TokenView)
    requires
        valid_token(t),
    ensures
        encode_token(t) == token_bytes(t),
        parse_token(encode_token(t)) == (Ok::<TokenView, DecodeError>(t), modules_blobs(t.modules)),
{
    lemma_valid_token_encodable(t);
    assert(token_bytes(t).subrange(0, token_bytes(t).len() as int) =~= token_bytes(t));
    lemma_token_bytes_round_trip(t, token_bytes(t));
}

proof fn lemma_valid_token_encodable(t: TokenView)
    requires
        valid_token(t),
    ensures
        token_encodable(t),
{
    assert(token_encodable(t)) by {
        assert forall|i: int| 0 <= i < t.modules.len() implies module_encodable(
            #[trigger] t.modules[i].1,
        ) by {
            let m = t.modules[i].1;
            assert(valid_module(m));
            assert forall|j: int| 0 <= j < m.methods.len() implies method_encodable(
                #[trigger] m.methods[j].1,
            ) by {
                assert(valid_method(m.methods[j].1));
            }
        }
    }
}

/// Round trip with trailing bytes: a valid token's encoding, followed by any
/// bytes at all, decodes to the token, takes exactly the encoding's length and
/// leaves the rest unread, handing back the token's constraint programs in
/// order.
pub proof fn lemma_token_round_trip_with_rest(t: TokenView, rest: Seq<u8>)
    requires
        valid_token(t),
    ensures
        parse_token_prefix(encode_token(t) + rest) == (
            Ok::<(TokenView, int), DecodeError>((t, encode_token(t).len() as int)),
            modules_blobs(t.modules),
        ),
{
    lemma_valid_token_encodable(t);
    let b = token_bytes(t) + rest;
    assert(b.subrange(0, token_bytes(t).len() as int) =~= token_bytes(t));
    lemma_token_bytes_round_trip(t, b);
}

proof fn lemma_token_bytes_round_trip(t: TokenView, b: Seq<u8>)
    requires
        valid_token(t),
        holds_at(b, 0, token_bytes(t)),
    ensures
        parse_token_prefix(b) == (
            Ok::<(TokenView, int), DecodeError>((t, token_bytes(t).len() as int)),
            modules_blobs(t.modules),
        ),
{
    let e = token_bytes(t);
    let head = seq![0u8, 0u8, (t.modules.len() - 1) as u8];
    let mb = modules_bytes(t.modules);
    let cc = seq![t.contracts.len() as u8];
    let cb = contracts_bytes(t.contracts);
    assert(e == head + mb + cc + cb);
    lemma_holds_split(b, 0, head + mb + cc, cb);
    lemma_holds_split(b, 0, head + mb, cc);
    lemma_holds_split(b, 0, head, mb);
    lemma_modules_round_trip(t.modules, b, 3);
    lemma_contracts_round_trip(t.contracts, b, 4 + mb.len() as int);
    assert(b[0] == e[0] && b[1] == e[1] && b[2] == e[2]);
    assert(b[3 + mb.len() as int] == e[3 + mb.len() as int]);
}

proof fn lemma_modules_prefix(ms: Seq<(Seq<char>, ModuleView)>, b: Seq<u8>, pos: int)
    requires
        valid_modules(ms),
        prefix_at(b, pos, modules_bytes(ms)),
    ensures
        parse_modules(b, pos, ms.len()).0 == Err::<(Seq<(Seq<char>, ModuleView)>, int), DecodeError>(
            DecodeError::ShortBuffer,
        ),
    decreases ms.len(),
{
    if ms.len() == 0 {
        assert(modules_bytes(ms).len() == 0);
    } else {
        let init = ms.drop_last();
        let last = ms.last();
        assert(valid_modules(init)) by {
            assert forall|i: int| 0 <= i < init.len() implies valid_module(#[trigger] init[i].1)
                && init[i].0 == init[i].1.name by {
                assert(init[i] == ms[i]);
            }
        }
        assert(valid_module(ms[ms.len() - 1].1));
        lemma_prefix_split(b, pos, modules_bytes(init), module_bytes(last.1));
        if prefix_at(b, pos, modules_bytes(init)) {
            lemma_modules_prefix(init, b, pos);
            lemma_modules_stop(b, pos, init.len(), ms.len());
        } else {
            lemma_modules_round_trip(init, b, pos);
            lemma_module_prefix(last.1, b, pos + modules_bytes(init).len());
        }
    }
}

proof fn lemma_contracts_prefix(cs: Seq<(Seq<u8>, ContractView)>, b: Seq<u8>, pos: int)
    requires
        valid_contracts(cs),
        prefix_at(b, pos, contracts_bytes(cs)),
    ensures
        parse_contracts(b, pos, cs.len()) == Err::<(Seq<(Seq<u8>, ContractView)>, int), DecodeError>(
            DecodeError::ShortBuffer,
        ),
    decreases cs.len(),
{
    if cs.len() == 0 {
        assert(contracts_bytes(cs).len() == 0);
    } else {
        let init = cs.drop_last();
        let last = cs.last();
        assert(valid_contracts(init)) by {
            assert forall|i: int| 0 <= i < init.len() implies (#[trigger] init[i].1).address.len()
                == 32 && init[i].0 == init[i].1.address by {
                assert(init[i] == cs[i]);
            }
        }
        assert(cs[cs.len() - 1].1.address.len() == 32);
        lemma_prefix_split(b, pos, contracts_bytes(init), contract_bytes(last.1));
        if prefix_at(b, pos, contracts_bytes(init)) {
            lemma_contracts_prefix(init, b, pos);
            lemma_contracts_stop(b, pos, init.len(), cs.len());
        } else {
            lemma_contracts_round_trip(init, b, pos);
            lemma_contract_prefix(last.1, b, pos + contracts_bytes(init).len());
        }
    }
}

/// Truncation: every proper prefix of a valid token's encoding fails to decode
/// with `ShortBuffer`, wherever the cut falls: in the version tag, a count, a
/// name, an address, a cooldown or a constraint program.
pub proof fn lemma_truncated_token(t: TokenView, k: int)
    requires
        valid_token(t),
        0 <= k < encode_token(t).len(),
    ensures
        parse_token(encode_token(t).take(k)).0 == Err::<TokenView, DecodeError>(
            DecodeError::ShortBuffer,
        ),
{
    lemma_valid_token_encodable(t);
    let e = token_bytes(t);
    let b = e.take(k);
    if k >= 3 {
        assert(b[0] == e[0] && b[1] == e[1] && b[2] == e[2]);
        let head = seq![0u8, 0u8, (t.modules.len() - 1) as u8];
        let mb = modules_bytes(t.modules);
        let cc = seq![t.contracts.len() as u8];
        let cb = contracts_bytes(t.contracts);
        assert(e == head + mb + cc + cb);
        assert(prefix_at(b, 0, e)) by {
            assert(b.subrange(0, b.len() as int) =~= e.take(k));
        }
        lemma_prefix_split(b, 0, head + mb + cc, cb);
        if prefix_at(b, 0, head + mb + cc) {
            lemma_prefix_split(b, 0, head + mb, cc);
            if prefix_at(b, 0, head + mb) {
                lemma_prefix_split(b, 0, head, mb);
                lemma_modules_prefix(t.modules, b, 3);
            } else {
                lemma_holds_split(b, 0, head, mb);
                lemma_modules_round_trip(t.modules, b, 3);
            }
        } else {
            lemma_holds_split(b, 0, head + mb, cc);
            lemma_holds_split(b, 0, head, mb);
            lemma_modules_round_trip(t.modules, b, 3);
            assert(b[3 + mb.len() as int] == cc[0]);
            lemma_contracts_prefix(t.contracts, b, 4 + mb.len() as int);
        }
    }
}

/// Version gate: bytes whose first two are not `[0, 0]` decode to
/// `UnsupportedVersion`, whatever follows them, and nothing else is read.
pub proof fn lemma_version_gate(b: Seq<u8>)
    requires
        b.len() >= 2,
        b[0] != 0 || b[1] != 0,
    ensures
        parse_token(b) == (
            Err::<TokenView, DecodeError>(DecodeError::UnsupportedVersion),
            Seq::<Seq<u8>>::empty(),
        ),
{
}

/// Encode bounds: a token with no module or more than 256, more than 255
/// contracts, a module grant with no method or more than 128, or more than
/// 65535 bytes in all encodes to nothing.
pub proof fn lemma_encode_bounds(t: TokenView)
    requires
        t.modules.len() == 0 || t.modules.len() > 256 || t.contracts.len() > 255 || (exists|i: int|
            0 <= i < t.modules.len() && (t.modules[i].1.methods.len() == 0
                || t.modules[i].1.methods.len() > 128)) || token_bytes(t).len() > 65535,
    ensures
        encode_token(t) == Seq::<u8>::empty(),
{
    if exists|i: int|
        0 <= i < t.modules.len() && (t.modules[i].1.methods.len() == 0
            || t.modules[i].1.methods.len() > 128) {
        let i = choose|i: int|
            0 <= i < t.modules.len() && (t.modules[i].1.methods.len() == 0
                || t.modules[i].1.methods.len() > 128);
        assert(!module_encodable(t.modules[i].1));
    }
}

/// Once reading module grants has failed, reading more fails the same way.
proof fn lemma_modules_stop(b: Seq<u8>, pos: int, k: nat, n: nat)
    requires
        k <= n,
        parse_modules(b, pos, k).0 is Err,
    ensures
        parse_modules(b, pos, n) == parse_modules(b, pos, k),
    decreases n - k,
{
    if k < n {
        lemma_modules_stop(b, pos, k, (n - 1) as nat);
    }
}

/// Once reading contract grants has failed, reading more fails the same way.
proof fn lemma_contracts_stop(b: Seq<u8>, pos: int, k: nat, n: nat)
    requires
        k <= n,
        parse_contracts(b, pos, k) is Err,
    ensures
        parse_contracts(b, pos, n) == parse_contracts(b, pos, k),
    decreases n - k,
{
    if k < n {
        lemma_contracts_stop(b, pos, k, (n - 1) as nat);
    }
}

impl CENNZnutV0 {
    /// The module grant that a call into `module` falls under: the first
    /// grant keyed `module`, else the last keyed by the wildcard, else none.
    pub fn get_module(&self, module: &str) -> (r: Option<&Module>)
        ensures
            match resolve(keys_of(self@.modules), module@, wildcard_name()) {
                Some(i) => r matches Some(m) && *m == self.modules@[i].1,
                None => r is None,
            },
    {
        let ghost keys = keys_of(self@.modules);
        let mut outcome: Option<&Module> = None;
        let ghost mut wild: int = -1;
        let mut i: usize = 0;
        while i < self.modules.len()
            invariant
                i <= self.modules@.len(),
                keys == keys_of(self@.modules),
                keys.len() == self.modules@.len(),
                forall|j: int| 0 <= j < i ==> keys[j] != module@,
                -1 <= wild < i,
                wild == -1 ==> outcome is None && forall|j: int|
                    0 <= j < i ==> keys[j] != wildcard_name(),
                wild >= 0 ==> keys[wild] == wildcard_name() && (outcome matches Some(m) && *m
                    == self.modules@[wild].1),
                forall|j: int| wild < j < i ==> keys[j] != wildcard_name(),
            decreases self.modules.len() - i,
        {
            let entry = &self.modules[i];
            assert(keys[i as int] == self.modules@[i as int].0@);
            if same_text(entry.0.as_str(), module) {
                proof {
                    lemma_resolve_exact(keys, module@, wildcard_name(), i as int);
                }
                return Some(&entry.1);
            } else if is_wildcard_name(entry.0.as_str()) {
                outcome = Some(&entry.1);
                proof {
                    wild = i as int;
                }
            }
            i = i + 1;
        }
        proof {
            if wild >= 0 {
                lemma_resolve_wild(keys, module@, wildcard_name(), wild);
            }
        }
        outcome
    }

    /// The contract grant that a call of the contract at `contract` falls
    /// under: the first grant keyed `contract`, else the last keyed by the
    /// wildcard address, else none.
    pub fn get_contract(&self, contract: ContractAddress) -> (r: Option<&Contract>)
        ensures
            match resolve(addresses_of(self@.contracts), contract@, wildcard_address()) {
                Some(i) => r matches Some(c) && *c == self.contracts@[i].1,
                None => r is None,
            },
    {
        let ghost keys = addresses_of(self@.contracts);
        let mut outcome: Option<&Contract> = None;
        let ghost mut wild: int = -1;
        let mut i: usize = 0;
        while i < self.contracts.len()
            invariant
                i <= self.contracts@.len(),
                keys == addresses_of(self@.contracts),
                keys.len() == self.contracts@.len(),
                forall|j: int| 0 <= j < i ==> keys[j] != contract@,
                -1 <= wild < i,
                wild == -1 ==> outcome is None && forall|j: int|
                    0 <= j < i ==> keys[j] != wildcard_address(),
                wild >= 0 ==> keys[wild] == wildcard_address() && (outcome matches Some(c) && *c
                    == self.contracts@[wild].1),
                forall|j: int| wild < j < i ==> keys[j] != wildcard_address(),
            decreases self.contracts.len() - i,
        {
            let entry = &self.contracts[i];
            assert(keys[i as int] == self.contracts@[i as int].0@);
            if same_address(&entry.0, &contract) {
                proof {
                    lemma_resolve_exact(keys, contract@, wildcard_address(), i as int);
                }
                return Some(&entry.1);
            } else if is_wildcard_address(&entry.0) {
                outcome = Some(&entry.1);
                proof {
                    wild = i as int;
                }
            }
            i = i + 1;
        }
        proof {
            if wild >= 0 {
                lemma_resolve_wild(keys, contract@, wildcard_address(), wild);
            }
        }
        outcome
    }

    /// The encoding of this token: its bytes, or nothing when it holds no
    /// module or more than 256, more than 255 contracts, a module grant that
    /// does not encode, or more than 65535 bytes in all.
    pub fn encode(&self) -> (r: Vec<u8>)
        ensures
            r@ == encode_token(self@),
    {
        let empty: Vec<u8> = Vec::new();
        assert(empty@ =~= Seq::<u8>::empty());
        if self.modules.len() == 0 || self.modules.len() > MAX_MODULES || self.contracts.len()
            > MAX_CONTRACTS {
            return empty;
        }
        let ghost t = self@;
        // Every module is encoded before anything is committed to the output.
        let mut payload: Vec<u8> = Vec::new();
        let mut i: usize = 0;
        while i < self.modules.len()
            invariant
                i <= self.modules@.len(),
                t == self@,
                payload@ == modules_bytes(t.modules.take(i as int)),
                forall|j: int| 0 <= j < i ==> module_encodable(#[trigger] t.modules[j].1),
            decreases self.modules.len() - i,
        {
            assert(t.modules[i as int].1 == self.modules@[i as int].1@);
            if !self.modules[i].1.is_encodable() {
                return Vec::new();
            }
            self.modules[i].1.encode_to(&mut payload);
            assert(t.modules.take(i + 1).drop_last() =~= t.modules.take(i as int));
            i = i + 1;
        }
        assert(t.modules.take(self.modules@.len() as int) =~= t.modules);
        let mut out: Vec<u8> = Vec::new();
        out.push(VERSION_BYTES[0]);
        out.push(VERSION_BYTES[1]);
        out.push((self.modules.len() - 1) as u8);
        out.append(&mut payload);
        out.push(self.contracts.len() as u8);
        let ghost head = out@;
        let mut k: usize = 0;
        while k < self.contracts.len()
            invariant
                k <= self.contracts@.len(),
                t == self@,
                out@ == head + contracts_bytes(t.contracts.take(k as int)),
            decreases self.contracts.len() - k,
        {
            assert(t.contracts[k as int].1 == self.contracts@[k as int].1@);
            self.contracts[k].1.encode_to(&mut out);
            assert(t.contracts.take(k + 1).drop_last() =~= t.contracts.take(k as int));
            k = k + 1;
        }
        assert(t.contracts.take(self.contracts@.len() as int) =~= t.contracts);
        assert(out@ =~= token_bytes(t));
        if out.len() <= MAX_CENNZNUT_BYTES {
            out
        } else {
            Vec::new()
        }
    }

    /// Reads a token body at `pos` of `b`; returns it with the position after
    /// it, and appends to `seen` the constraint programs read before stopping.
    pub(crate) fn decode_body(b: &[u8], pos: usize, seen: &mut Vec<Vec<u8>>) -> (r: Result<
        (CENNZnutV0, usize),
        DecodeError,
    >)
        requires
            pos <= b@.len(),
        ensures
            blobs_view(final(seen)@) == blobs_view(old(seen)@) + parse_body(b@, pos as int).1,
            match parse_body(b@, pos as int).0 {
                Ok((t, p)) => r matches Ok((x, q)) && x@ == t && q == p,
                Err(e) => r == Err::<(CENNZnutV0, usize), DecodeError>(e),
            },
    {
        let ghost seen0 = blobs_view(seen@);
        if b.len() - pos < 1 {
            assert(blobs_view(seen@) =~= seen0 + Seq::empty());
            return Err(DecodeError::ShortBuffer);
        }
        let count: usize = b[pos] as usize + 1;
        let ghost q = pos + 1;
        let mut p: usize = pos + 1;
        assert(blobs_view(seen@) =~= seen0 + parse_modules(b@, q, 0).1);
        assert(parse_modules(b@, q, count as nat).0 is Err ==> parse_body(b@, pos as int) == (
            Err::<(TokenView, int), DecodeError>(parse_modules(b@, q, count as nat).0->Err_0),
            parse_modules(b@, q, count as nat).1,
        ));
        let mut modules: Vec<(ModuleName, Module)> = Vec::new();
        assert(modules_view(modules@) =~= Seq::empty());
        let mut i: usize = 0;
        while i < count
            invariant
                i <= count,
                count == b@[pos as int] + 1,
                p <= b@.len(),
                q == pos + 1,
                parse_modules(b@, q, count as nat).0 is Err ==> parse_body(b@, pos as int) == (
                    Err::<(TokenView, int), DecodeError>(
                        parse_modules(b@, q, count as nat).0->Err_0,
                    ),
                    parse_modules(b@, q, count as nat).1,
                ),
                seen0 == blobs_view(old(seen)@),
                blobs_view(seen@) == seen0 + parse_modules(b@, q, i as nat).1,
                parse_modules(b@, q, i as nat).0 == Ok::<
                    (Seq<(Seq<char>, ModuleView)>, int),
                    DecodeError,
                >((modules_view(modules@), p as int)),
            decreases count - i,
        {
            let ghost prev = modules@;
            let ghost before = blobs_view(seen@);
            match Module::decode_at(b, p, seen) {
                Ok((m, next)) => {
                    let ghost mv = m@;
                    let key = m.name.clone();
                    modules.push((key, m));
                    assert(modules_view(modules@) =~= modules_view(prev).push((mv.name, mv)));
                    assert(blobs_view(seen@) =~= seen0 + parse_modules(b@, q, (i + 1) as nat).1);
                    p = next;
                },
                Err(e) => {
                    proof {
                        assert(blobs_view(seen@) =~= seen0 + parse_modules(b@, q, (i + 1) as nat).1);
                        lemma_modules_stop(b@, q, (i + 1) as nat, count as nat);
                    }
                    return Err(e);
                },
            }
            i = i + 1;
        }
        assert(parse_body(b@, pos as int).1 == parse_modules(b@, q, count as nat).1);
        if b.len() - p < 1 {
            return Err(DecodeError::ShortBuffer);
        }
        let contract_count: usize = b[p] as usize;
        let ghost cq = p + 1;
        p = p + 1;
        let mut contracts: Vec<(ContractAddress, Contract)> = Vec::new();
        assert(contracts_view(contracts@) =~= Seq::empty());
        let ghost mv = modules_view(modules@);
        assert(parse_body(b@, pos as int).0 == match parse_contracts(b@, cq, contract_count as nat) {
            Err(e) => Err(e),
            Ok((cs, end)) => Ok((TokenView { modules: mv, contracts: cs }, end)),
        });
        let mut k: usize = 0;
        while k < contract_count
            invariant
                k <= contract_count,
                p <= b@.len(),
                blobs_view(seen@) == blobs_view(old(seen)@) + parse_body(b@, pos as int).1,
                mv == modules_view(modules@),
                parse_body(b@, pos as int).0 == match parse_contracts(b@, cq, contract_count as nat) {
                    Err(e) => Err(e),
                    Ok((cs, end)) => Ok((TokenView { modules: mv, contracts: cs }, end)),
                },
                parse_contracts(b@, cq, k as nat) == Ok::<
                    (Seq<(Seq<u8>, ContractView)>, int),
                    DecodeError,
                >((contracts_view(contracts@), p as int)),
            decreases contract_count - k,
        {
            let ghost prev = contracts@;
            match Contract::decode_at(b, p) {
                Ok((c, next)) => {
                    let ghost cv = c@;
                    contracts.push((c.address, c));
                    assert(contracts_view(contracts@) =~= contracts_view(prev).push((cv.address, cv)));
                    p = next;
                },
                Err(e) => {
                    proof {
                        lemma_contracts_stop(b@, cq, (k + 1) as nat, contract_count as nat);
                    }
                    return Err(e);
                },
            }
            k = k + 1;
        }
        Ok((CENNZnutV0 { modules, contracts }, p))
    }

    /// Decodes a version 0 token from the start of `input` and tells how many
    /// bytes it takes, so that a token embedded in a larger credential can be
    /// read; bytes after it are left alone. Fails with `ShortBuffer` where a
    /// field runs past the end, `UnsupportedVersion` where the first two bytes
    /// are not `[0, 0]`, and `InvalidUtf8` for a name that is not UTF-8; the
    /// constraint programs read are handed back for the interpreter to judge.
    pub fn decode_prefix(input: &[u8]) -> (r: Parsed<(CENNZnutV0, usize)>)
        ensures
            blobs_view(r.constraints@) == parse_token_prefix(input@).1,
            match parse_token_prefix(input@).0 {
                Ok((t, end)) => r.result matches Ok((x, n)) && x@ == t && n == end,
                Err(e) => r.result == Err::<(CENNZnutV0, usize), DecodeError>(e),
            },
    {
        let mut seen: Vec<Vec<u8>> = Vec::new();
        assert(blobs_view(seen@) =~= Seq::empty());
        if input.len() < 2 {
            return Parsed { result: Err(DecodeError::ShortBuffer), constraints: seen };
        }
        if input[0] != VERSION_BYTES[0] || input[1] != VERSION_BYTES[1] {
            return Parsed { result: Err(DecodeError::UnsupportedVersion), constraints: seen };
        }
        let result = CENNZnutV0::decode_body(input, 2, &mut seen);
        assert(blobs_view(seen@) =~= parse_token_prefix(input@).1);
        Parsed { result, constraints: seen }
    }

    /// Decodes a version 0 token from the start of `input`; bytes after it
    /// are left alone. Fails as `decode_prefix` does; the constraint programs
    /// read are handed back for the interpreter to judge.
    pub fn decode(input: &[u8]) -> (r: Parsed<CENNZnutV0>)
        ensures
            blobs_view(r.constraints@) == parse_token(input@).1,
            match parse_token(input@).0 {
                Ok(t) => r.result matches Ok(x) && x@ == t,
                Err(e) => r.result == Err::<CENNZnutV0, DecodeError>(e),
            },
    {
        let parsed = CENNZnutV0::decode_prefix(input);
        let result = match parsed.result {
            Ok((t, _)) => Ok(t),
            Err(e) => Err(e),
        };
        Parsed { result, constraints: parsed.constraints }
    }

    /// Decides a runtime call of `method_name` in `module_name`: refused in the
    /// module domain when no module grant covers it, in the method domain when
    /// no method grant of that module does, allowed when that method grant has
    /// no constraints, and otherwise decided by `interpret`'s judgement of its
    /// constraint program.
    pub fn validate_module<F: FnOnce(&[u8]) -> Interpretation>(
        &self,
        module_name: &str,
        method_name: &str,
        interpret: F,
    ) -> (r: Result<(), ValidationErr<RuntimeDomain>>)
        requires
            forall|c: &[u8]| interpret.requires((c,)),
        ensures
            runtime_decision(self@, module_name@, method_name@, interpret, r),
    {
        let module = match self.get_module(module_name) {
            Some(m) => m,
            None => {
                return Err(ValidationErr::NoPermission(RuntimeDomain::Module));
            },
        };
        let ghost i = resolve(keys_of(self@.modules), module_name@, wildcard_name())->Some_0;
        proof {
            lemma_resolve_found(keys_of(self@.modules), module_name@, wildcard_name());
        }
        assert(module@ == self@.modules[i].1);
        let method = match module.get_method(method_name) {
            Some(m) => m,
            None => {
                return Err(ValidationErr::NoPermission(RuntimeDomain::Method));
            },
        };
        let ghost j = resolve(keys_of(module@.methods), method_name@, wildcard_name())->Some_0;
        proof {
            lemma_resolve_found(keys_of(module@.methods), method_name@, wildcard_name());
        }
        assert(method@ == self@.modules[i].1.methods[j].1);
        match &method.constraints {
            None => Ok(()),
            Some(c) => {
                let s = c.as_slice();
                let v = interpret(s);
                let r = decide_constraints(v);
                assert(s@ == c@ && interpret.ensures((s,), v) && r == constraints_decision(v));
                r
            },
        }
    }

    /// Decides a call of the contract at `contract_address`: allowed when a
    /// contract grant covers it, refused in the contract domain otherwise.
    pub fn validate_contract(&self, contract_address: ContractAddress) -> (r: Result<
        (),
        ValidationErr<ContractDomain>,
    >)
        ensures
            r == contract_decision(self@, contract_address@),
    {
        match self.get_contract(contract_address) {
            Some(_) => Ok(()),
            None => Err(ValidationErr::NoPermission(ContractDomain::Contract)),
        }
    }
}

} // verus!
