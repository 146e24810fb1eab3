//! A grant to call one smart contract, or every contract through the wildcard
//! address.
//!
//! Layout: a flag byte (bit 0: a cooldown follows), the 32 address bytes, then
//! the cooldown as a little-endian `u32` when the flag announces one.
use vstd::prelude::*;

use crate::error::DecodeError;
use crate::names::{wildcard_address, ContractAddress, CONTRACT_WILDCARD};
use crate::wire::{
    cooldown_bytes, le_bytes, le_value, lemma_le_round_trip, prefix_at, push_cooldown, read_le_u32,
};

verus! {

/// Flag bit announcing a cooldown.
const BLOCK_COOLDOWN_MASK: u8 = 0x01;

/// Permission to call the contract at `address`.
#[derive(Clone, Debug, PartialEq, Eq)]
pub struct Contract {
    pub address: ContractAddress,
    pub block_cooldown: Option<u32>,
}

/// A contract grant as plain values.
pub struct ContractView {
    pub address: Seq<u8>,
    pub block_cooldown: Option<u32>,
}

impl View for Contract {
    type V = ContractView;

    open spec fn view(&self) -> ContractView {
        ContractView { address: self.address@, block_cooldown: self.block_cooldown }
    }
}

/// The flag byte of a contract grant.
pub open spec fn contract_flag(c: ContractView) -> u8 {
    if c.block_cooldown is Some {
        1
    } else {
        0
    }
}

/// The bytes of a contract grant.
pub open spec fn contract_bytes(c: ContractView) -> Seq<u8> {
    seq![contract_flag(c)] + c.address + cooldown_bytes(c.block_cooldown)
}

/// Reads a contract grant at `pos`: the grant and the position after it.
pub open spec fn parse_contract(b: Seq<u8>, pos: int) -> Result<(ContractView, int), DecodeError> {
    if b.len() < pos + 33 {
        Err(DecodeError::ShortBuffer)
    } else if b[pos] % 2 == 1 {
        if b.len() < pos + 37 {
            Err(DecodeError::ShortBuffer)
        } else {
            Ok(
                (
                    ContractView {
                        address: b.subrange(pos + 1, pos + 33),
                        block_cooldown: Some(le_value(b, pos + 33)),
                    },
                    pos + 37,
                ),
            )
        }
    } else {
        Ok((ContractView { address: b.subrange(pos + 1, pos + 33), block_cooldown: None }, pos + 33))
    }
}

/// A contract grant reads back from its bytes wherever they stand.
pub proof fn lemma_contract_round_trip(c: ContractView, b: Seq<u8>, pos: int)
    requires
        c.address.len() == 32,
        0 <= pos,
        pos + contract_bytes(c).len() <= b.len(),
        b.subrange(pos, pos + contract_bytes(c).len()) == contract_bytes(c),
    ensures
        parse_contract(b, pos) == Ok::<(ContractView, int), DecodeError>(
            (c, pos + contract_bytes(c).len()),
        ),
{
    let e = contract_bytes(c);
    assert(b[pos] == e[0]);
    assert(b.subrange(pos + 1, pos + 33) =~= c.address) by {
        assert forall|k: int| 0 <= k < 32 implies b.subrange(pos + 1, pos + 33)[k] == c.address[k] by {
            assert(b[pos + 1 + k] == e[1 + k]);
        }
    }
    match c.block_cooldown {
        Some(v) => {
            lemma_le_round_trip(v);
            assert(le_value(b, pos + 33) == le_value(le_bytes(v), 0)) by {
                assert(b[pos + 33] == e[33]);
                assert(b[pos + 34] == e[34]);
                assert(b[pos + 35] == e[35]);
                assert(b[pos + 36] == e[36]);
            }
        },
        None => {},
    }
}

/// A contract grant's bytes cut short read as `ShortBuffer`.
pub proof fn lemma_contract_prefix(c: ContractView, b: Seq<u8>, pos: int)
    requires
        c.address.len() == 32,
        prefix_at(b, pos, contract_bytes(c)),
    ensures
        parse_contract(b, pos) == Err::<(ContractView, int), DecodeError>(DecodeError::ShortBuffer),
{
    let e = contract_bytes(c);
    if b.len() >= pos + 33 {
        assert(b[pos] == e[0]) by {
            assert(b.subrange(pos, b.len() as int)[0] == e.take(b.len() - pos)[0]);
        }
    }
}

impl Contract {
    /// A grant for `address`, without a cooldown.
    pub fn new(address: &ContractAddress) -> (r: Self)
        ensures
            r@ == (ContractView { address: address@, block_cooldown: None }),
    {
        Contract { address: *address, block_cooldown: None }
    }

    /// A grant for every contract, without a cooldown.
    pub fn wildcard() -> (r: Self)
        ensures
            r@ == (ContractView { address: wildcard_address(), block_cooldown: None }),
    {
        let r = Contract { address: CONTRACT_WILDCARD, block_cooldown: None };
        assert(r@.address =~= wildcard_address());
        r
    }

    /// This grant with a cooldown of `block_cooldown` blocks.
    pub fn block_cooldown(self, block_cooldown: u32) -> (r: Self)
        ensures
            r@ == (ContractView { address: self@.address, block_cooldown: Some(block_cooldown) }),
    {
        Contract { address: self.address, block_cooldown: Some(block_cooldown) }
    }

    /// Appends the bytes of this grant.
    pub fn encode_to(&self, out: &mut Vec<u8>)
        ensures
            final(out)@ == old(out)@ + contract_bytes(self@),
    {
        let flag: u8 = if self.block_cooldown.is_some() {
            BLOCK_COOLDOWN_MASK
        } else {
            0
        };
        let ghost start = out@;
        out.push(flag);
        let mut i: usize = 0;
        while i < 32
            invariant
                i <= 32,
                out@ == start + seq![flag] + self.address@.take(i as int),
            decreases 32 - i,
        {
            out.push(self.address[i]);
            assert(self.address@.take(i + 1) =~= self.address@.take(i as int).push(self.address@[i as int]));
            i = i + 1;
        }
        assert(self.address@.take(32) =~= self.address@);
        assert(flag == contract_flag(self@));
        push_cooldown(out, self.block_cooldown);
        assert(out@ =~= start + contract_bytes(self@));
    }

    /// The bytes of this grant.
    pub fn encode(&self) -> (r: Vec<u8>)
        ensures
            r@ == contract_bytes(self@),
    {
        let mut out: Vec<u8> = Vec::new();
        self.encode_to(&mut out);
        assert(out@ =~= contract_bytes(self@));
        out
    }

    /// Reads a grant at `pos` of `b`; returns it with the position after it.
    pub(crate) fn decode_at(b: &[u8], pos: usize) -> (r: Result<(Contract, usize), DecodeError>)
        requires
            pos <= b@.len(),
        ensures
            match parse_contract(b@, pos as int) {
                Ok((c, p)) => r matches Ok((x, q)) && x@ == c && q == p,
                Err(e) => r == Err::<(Contract, usize), DecodeError>(e),
            },
    {
        if b.len() - pos < 33 {
            return Err(DecodeError::ShortBuffer);
        }
        let flag: u8 = b[pos];
        let mut address: ContractAddress = [0u8; 32];
        let mut i: usize = 0;
        while i < 32
            invariant
                pos + 33 <= b.len(),
                forall|k: int| 0 <= k < i ==> address@[k] == b@[pos + 1 + k],
            decreases 32 - i,
        {
            address[i] = b[pos + 1 + i];
            i = i + 1;
        }
        assert(address@ =~= b@.subrange(pos + 1, pos + 33));
        if flag & BLOCK_COOLDOWN_MASK == BLOCK_COOLDOWN_MASK {
            assert(flag % 2 == 1) by (bit_vector)
                requires
                    flag & 1u8 == 1u8,
            ;
            if b.len() - pos < 37 {
                return Err(DecodeError::ShortBuffer);
            }
            let cooldown = read_le_u32(b, pos + 33);
            Ok((Contract { address, block_cooldown: Some(cooldown) }, pos + 37))
        } else {
            assert(flag % 2 != 1) by (bit_vector)
                requires
                    flag & 1u8 != 1u8,
            ;
            Ok((Contract { address, block_cooldown: None }, pos + 33))
        }
    }

    /// Reads a grant from the start of `input`; bytes after it are left alone.
    pub fn decode(input: &[u8]) -> (r: Result<Contract, DecodeError>)
        ensures
            match parse_contract(input@, 0) {
                Ok((c, _)) => r matches Ok(x) && x@ == c,
                Err(e) => r == Err::<Contract, DecodeError>(e),
            },
    {
        match Contract::decode_at(input, 0) {
            Ok((c, _)) => Ok(c),
            Err(e) => Err(e),
        }
    }
}

} // verus!
