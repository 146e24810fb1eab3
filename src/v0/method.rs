//! A grant to call one method of a module, or every method through the
//! wildcard name, optionally limited by a constraint program over the call's
//! arguments.
//!
//! Layout: a flag byte (bit 7: a cooldown follows; bit 6: constraints follow),
//! the 32-byte name field, the cooldown as a little-endian `u32` if announced,
//! then, if announced, one byte holding the constraints' length less one and
//! the constraint bytes themselves (1 to 256 of them).
use vstd::prelude::*;

use crate::error::DecodeError;
use crate::parsed::{blobs_view, Parsed};
use crate::wire::copy_bytes;
use crate::wire::{
    cooldown_bytes, le_bytes, le_value, lemma_le_round_trip, lemma_name_round_trip, name_field,
    prefix_at, push_cooldown, push_name, read_le_u32, read_name, read_name_at, valid_name,
};

verus! {

/// Flag bit announcing a cooldown.
const BLOCK_COOLDOWN_MASK: u8 = 0b1000_0000;

/// Flag bit announcing constraints.
const CONSTRAINTS_MASK: u8 = 0b0100_0000;

/// Permission to call the method `name`.
#[derive(Clone, Debug, PartialEq, Eq)]
pub struct Method {
    pub name: String,
    pub block_cooldown: Option<u32>,
    pub constraints: Option<Vec<u8>>,
}

/// A method grant as plain values.
pub struct MethodView {
    pub name: Seq<char>,
    pub block_cooldown: Option<u32>,
    pub constraints: Option<Seq<u8>>,
}

/// The view of optional constraint bytes.
pub open spec fn constraints_view(c: Option<Vec<u8>>) -> Option<Seq<u8>> {
    match c {
        Some(v) => Some(v@),
        None => None,
    }
}

impl View for Method {
    type V = MethodView;

    open spec fn view(&self) -> MethodView {
        MethodView {
            name: self.name@,
            block_cooldown: self.block_cooldown,
            constraints: constraints_view(self.constraints),
        }
    }
}

/// The flag byte of a method grant.
pub open spec fn method_flag(m: MethodView) -> u8 {
    ((if m.block_cooldown is Some {
        128int
    } else {
        0int
    }) + (if m.constraints is Some {
        64int
    } else {
        0int
    })) as u8
}

/// The bytes that carry optional constraints.
pub open spec fn constraint_bytes(c: Option<Seq<u8>>) -> Seq<u8> {
    match c {
        Some(c) => seq![(c.len() - 1) as u8] + c,
        None => Seq::empty(),
    }
}

/// Whether the layout can carry the grant's constraints: 1 to 256 bytes.
pub open spec fn method_encodable(m: MethodView) -> bool {
    match m.constraints {
        Some(c) => 1 <= c.len() <= 256,
        None => true,
    }
}

/// The bytes of a method grant that the layout can carry.
pub open spec fn method_bytes(m: MethodView) -> Seq<u8> {
    seq![method_flag(m)] + name_field(m.name) + cooldown_bytes(m.block_cooldown) + constraint_bytes(
        m.constraints,
    )
}

/// The encoding of a method grant: its bytes, or nothing when the layout
/// cannot carry it.
pub open spec fn encode_method(m: MethodView) -> Seq<u8> {
    if method_encodable(m) {
        method_bytes(m)
    } else {
        Seq::empty()
    }
}

/// A method grant that reads back from its encoding.
pub open spec fn valid_method(m: MethodView) -> bool {
    valid_name(m.name) && method_encodable(m)
}

/// The constraint programs that a method grant carries.
pub open spec fn blobs_of(m: MethodView) -> Seq<Seq<u8>> {
    match m.constraints {
        Some(c) => seq![c],
        None => Seq::empty(),
    }
}

/// Reads a method grant at `pos`: the grant and the position after it.
pub open spec fn parse_method(b: Seq<u8>, pos: int) -> Result<(MethodView, int), DecodeError> {
    if b.len() < pos + 33 {
        Err(DecodeError::ShortBuffer)
    } else {
        let flag = b[pos];
        let has_cooldown = (flag / 128) % 2 == 1;
        let has_constraints = (flag / 64) % 2 == 1;
        match read_name(b.subrange(pos + 1, pos + 33)) {
            Err(e) => Err(e),
            Ok(name) => {
                let p = pos + 33;
                if has_cooldown && b.len() < p + 4 {
                    Err(DecodeError::ShortBuffer)
                } else {
                    let block_cooldown = if has_cooldown {
                        Some(le_value(b, p))
                    } else {
                        None
                    };
                    let q = if has_cooldown {
                        p + 4
                    } else {
                        p
                    };
                    if !has_constraints {
                        Ok((MethodView { name, block_cooldown, constraints: None }, q))
                    } else if b.len() < q + 1 {
                        Err(DecodeError::ShortBuffer)
                    } else {
                        let n = b[q] + 1;
                        if b.len() < q + 1 + n {
                            Err(DecodeError::ShortBuffer)
                        } else {
                            Ok(
                                (
                                    MethodView {
                                        name,
                                        block_cooldown,
                                        constraints: Some(b.subrange(q + 1, q + 1 + n)),
                                    },
                                    q + 1 + n,
                                ),
                            )
                        }
                    }
                }
            },
        }
    }
}

/// A valid method grant reads back from its bytes wherever they stand.
pub proof fn lemma_method_round_trip(m: MethodView, b: Seq<u8>, pos: int)
    requires
        valid_method(m),
        0 <= pos,
        pos + method_bytes(m).len() <= b.len(),
        b.subrange(pos, pos + method_bytes(m).len()) == method_bytes(m),
    ensures
        parse_method(b, pos) == Ok::<(MethodView, int), DecodeError>(
            (m, pos + method_bytes(m).len()),
        ),
{
    let e = method_bytes(m);
    lemma_name_round_trip(m.name);
    let nf = name_field(m.name);
    assert(b[pos] == e[0]);
    assert(b.subrange(pos + 1, pos + 33) =~= nf) by {
        assert forall|k: int| 0 <= k < 32 implies b.subrange(pos + 1, pos + 33)[k] == nf[k] by {
            assert(b[pos + 1 + k] == e[1 + k]);
        }
    }
    let q = pos + 33 + cooldown_bytes(m.block_cooldown).len();
    match m.block_cooldown {
        Some(v) => {
            lemma_le_round_trip(v);
            assert(le_value(b, pos + 33) == le_value(le_bytes(v), 0)) by {
                assert(b[pos + 33] == e[33]);
                assert(b[pos + 34] == e[34]);
                assert(b[pos + 35] == e[35]);
                assert(b[pos + 36] == e[36]);
            }
        },
        None => {},
    }
    match m.constraints {
        Some(c) => {
            let off = q - pos;
            assert(b[q] == e[off]);
            assert(b.subrange(q + 1, q + 1 + c.len()) =~= c) by {
                assert forall|k: int| 0 <= k < c.len() implies b.subrange(q + 1, q + 1 + c.len())[k]
                    == c[k] by {
                    assert(b[q + 1 + k] == e[off + 1 + k]);
                }
            }
        },
        None => {},
    }
}

/// A valid method grant's bytes cut short read as `ShortBuffer`.
pub proof fn lemma_method_prefix(m: MethodView, b: Seq<u8>, pos: int)
    requires
        valid_method(m),
        prefix_at(b, pos, method_bytes(m)),
    ensures
        parse_method(b, pos) == Err::<(MethodView, int), DecodeError>(DecodeError::ShortBuffer),
{
    let e = method_bytes(m);
    let n = b.len() - pos;
    assert forall|k: int| 0 <= k < n implies b[pos + k] == e[k] by {
        assert(b.subrange(pos, b.len() as int)[k] == e.take(n)[k]);
    }
    if b.len() >= pos + 33 {
        lemma_name_round_trip(m.name);
        let nf = name_field(m.name);
        assert(b[pos] == e[0]);
        assert(b.subrange(pos + 1, pos + 33) =~= nf) by {
            assert forall|k: int| 0 <= k < 32 implies b.subrange(pos + 1, pos + 33)[k] == nf[k] by {
                assert(b[pos + 1 + k] == e[1 + k]);
            }
        }
        let q = pos + 33 + cooldown_bytes(m.block_cooldown).len();
        if b.len() >= q {
            match m.constraints {
                Some(c) => {
                    if b.len() >= q + 1 {
                        assert(b[q] == e[q - pos]);
                    }
                },
                None => {},
            }
        }
    }
}

impl Method {
    /// A grant for the method `name`, without cooldown or constraints.
    pub fn new(name: &str) -> (r: Self)
        ensures
            r@ == (MethodView { name: name@, block_cooldown: None, constraints: None }),
    {
        Method { name: name.to_string(), block_cooldown: None, constraints: None }
    }

    /// This grant with a cooldown of `block_cooldown` blocks.
    pub fn block_cooldown(self, block_cooldown: u32) -> (r: Self)
        ensures
            r@ == (MethodView { block_cooldown: Some(block_cooldown), ..self@ }),
    {
        Method { name: self.name, block_cooldown: Some(block_cooldown), constraints: self.constraints }
    }

    /// This grant limited by the constraint program `constraints`.
    pub fn constraints(self, constraints: Vec<u8>) -> (r: Self)
        ensures
            r@ == (MethodView { constraints: Some(constraints@), ..self@ }),
    {
        Method { name: self.name, block_cooldown: self.block_cooldown, constraints: Some(constraints) }
    }

    /// Whether the layout can carry this grant's constraints.
    pub fn is_encodable(&self) -> (r: bool)
        ensures
            r == method_encodable(self@),
    {
        match &self.constraints {
            Some(c) => 1 <= c.len() && c.len() <= 256,
            None => true,
        }
    }

    /// Appends the encoding of this grant: its bytes, or nothing when it holds
    /// more than 256 or no constraint bytes.
    pub fn encode_to(&self, out: &mut Vec<u8>)
        ensures
            final(out)@ == old(out)@ + encode_method(self@),
    {
        let ghost start = out@;
        if !self.is_encodable() {
            assert(out@ =~= start + encode_method(self@));
            return;
        }
        let mut flag: u8 = 0;
        if self.block_cooldown.is_some() {
            flag = flag + BLOCK_COOLDOWN_MASK;
        }
        if self.constraints.is_some() {
            flag = flag + CONSTRAINTS_MASK;
        }
        assert(flag == method_flag(self@));
        out.push(flag);
        push_name(out, self.name.as_str());
        push_cooldown(out, self.block_cooldown);
        let ghost mid = out@;
        match &self.constraints {
            Some(c) => {
                let len_less_one: u8 = (c.len() - 1) as u8;
                out.push(len_less_one);
                let mut i: usize = 0;
                while i < c.len()
                    invariant
                        i <= c@.len(),
                        out@ == mid + seq![len_less_one] + c@.take(i as int),
                    decreases c.len() - i,
                {
                    out.push(c[i]);
                    assert(c@.take(i + 1) =~= c@.take(i as int).push(c@[i as int]));
                    i = i + 1;
                }
                assert(c@.take(c@.len() as int) =~= c@);
            },
            None => {},
        }
        assert(out@ =~= start + method_bytes(self@));
    }

    /// The encoding of this grant: its bytes, or nothing when it holds more
    /// than 256 or no constraint bytes.
    pub fn encode(&self) -> (r: Vec<u8>)
        ensures
            r@ == encode_method(self@),
    {
        let mut out: Vec<u8> = Vec::new();
        self.encode_to(&mut out);
        assert(out@ =~= encode_method(self@));
        out
    }

    /// Decodes a grant from the start of `input`; bytes after it are left
    /// alone. Its constraint program, if it has one, is handed back for the
    /// interpreter to judge.
    pub fn decode(input: &[u8]) -> (r: Parsed<Method>)
        ensures
            match parse_method(input@, 0) {
                Ok((m, _)) => r.result matches Ok(x) && x@ == m && blobs_view(r.constraints@)
                    == blobs_of(m),
                Err(e) => r.result == Err::<Method, DecodeError>(e) && r.constraints@.len() == 0,
            },
    {
        let mut seen: Vec<Vec<u8>> = Vec::new();
        match Method::decode_at(input, 0) {
            Ok((m, _)) => {
                match &m.constraints {
                    Some(c) => {
                        seen.push(copy_bytes(c));
                    },
                    None => {},
                }
                assert(blobs_view(seen@) =~= blobs_of(m@));
                Parsed { result: Ok(m), constraints: seen }
            },
            Err(e) => Parsed { result: Err(e), constraints: seen },
        }
    }

    /// Reads a grant at `pos` of `b`; returns it with the position after it.
    pub(crate) fn decode_at(b: &[u8], pos: usize) -> (r: Result<(Method, usize), DecodeError>)
        requires
            pos <= b@.len(),
        ensures
            match parse_method(b@, pos as int) {
                Ok((m, p)) => r matches Ok((x, q)) && x@ == m && q == p,
                Err(e) => r == Err::<(Method, usize), DecodeError>(e),
            },
    {
        if b.len() - pos < 33 {
            return Err(DecodeError::ShortBuffer);
        }
        let flag: u8 = b[pos];
        let has_cooldown = flag & BLOCK_COOLDOWN_MASK == BLOCK_COOLDOWN_MASK;
        let has_constraints = flag & CONSTRAINTS_MASK == CONSTRAINTS_MASK;
        assert(has_cooldown == ((flag / 128) % 2 == 1) && has_constraints == ((flag / 64) % 2 == 1))
            by (bit_vector)
            requires
                has_cooldown == (flag & 128u8 == 128u8),
                has_constraints == (flag & 64u8 == 64u8),
        ;
        let name = match read_name_at(b, pos + 1) {
            Ok(name) => name,
            Err(e) => {
                return Err(e);
            },
        };
        let mut p: usize = pos + 33;
        let mut block_cooldown: Option<u32> = None;
        if has_cooldown {
            if b.len() - p < 4 {
                return Err(DecodeError::ShortBuffer);
            }
            block_cooldown = Some(read_le_u32(b, p));
            p = p + 4;
        }
        if !has_constraints {
            return Ok((Method { name, block_cooldown, constraints: None }, p));
        }
        if b.len() - p < 1 {
            return Err(DecodeError::ShortBuffer);
        }
        let n: usize = b[p] as usize + 1;
        p = p + 1;
        if b.len() - p < n {
            return Err(DecodeError::ShortBuffer);
        }
        let mut constraints: Vec<u8> = Vec::new();
        let mut i: usize = 0;
        while i < n
            invariant
                i <= n,
                p + n <= b.len(),
                constraints@ == b@.subrange(p as int, p + i),
            decreases n - i,
        {
            constraints.push(b[p + i]);
            i = i + 1;
            assert(constraints@ =~= b@.subrange(p as int, p + i));
        }
        Ok((Method { name, block_cooldown, constraints: Some(constraints) }, p + n))
    }
}

} // verus!
