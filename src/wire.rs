//! Byte-level pieces shared by every entity of the layout: little-endian
//! cooldowns and 32-byte, zero-padded UTF-8 name fields.
use vstd::prelude::*;
use vstd::utf8::*;

use crate::error::DecodeError;

verus! {

broadcast use vstd::seq_lib::group_seq_properties;

/// Width of a name field and of a contract address.
pub const FIELD_LEN: usize = 32;

/// The four bytes of `v`, least significant first.
pub open spec fn le_bytes(v: u32) -> Seq<u8> {
    seq![
        (v & 0xff) as u8,
        ((v >> 8u32) & 0xff) as u8,
        ((v >> 16u32) & 0xff) as u8,
        ((v >> 24u32) & 0xff) as u8,
    ]
}

/// The `u32` whose little-endian bytes are `b[pos..pos + 4]`.
pub open spec fn le_value(b: Seq<u8>, pos: int) -> u32 {
    (b[pos] as u32) | ((b[pos + 1] as u32) << 8u32) | ((b[pos + 2] as u32) << 16u32) | ((b[
        pos + 3
    ] as u32) << 24u32)
}

/// The bytes that follow a flag announcing an optional cooldown.
pub open spec fn cooldown_bytes(c: Option<u32>) -> Seq<u8> {
    match c {
        Some(v) => le_bytes(v),
        None => Seq::empty(),
    }
}

/// `n` zero bytes.
pub open spec fn zeros(n: nat) -> Seq<u8> {
    Seq::new(n, |_i: int| 0u8)
}

/// The 32-byte field that holds `name`: its UTF-8 bytes, cut to 32 or padded
/// with zeros up to 32.
pub open spec fn name_field(name: Seq<char>) -> Seq<u8> {
    let b = encode_utf8(name);
    if b.len() >= 32 {
        b.take(32)
    } else {
        b + zeros((32 - b.len()) as nat)
    }
}

/// `f` without its trailing zero bytes.
pub open spec fn trim_zeros(f: Seq<u8>) -> Seq<u8>
    decreases f.len(),
{
    if f.len() > 0 && f.last() == 0 {
        trim_zeros(f.drop_last())
    } else {
        f
    }
}

/// What a name field reads as: the UTF-8 text before its zero padding.
pub open spec fn read_name(f: Seq<u8>) -> Result<Seq<char>, DecodeError> {
    let t = trim_zeros(f);
    if valid_utf8(t) {
        Ok(decode_utf8(t))
    } else {
        Err(DecodeError::InvalidUtf8)
    }
}

/// A name that survives a trip through its field: at most 32 bytes of UTF-8,
/// the last of which is not zero.
pub open spec fn valid_name(name: Seq<char>) -> bool {
    let b = encode_utf8(name);
    b.len() <= 32 && (b.len() == 0 || b.last() != 0)
}

pub proof fn lemma_le_round_trip(v: u32)
    ensures
        le_value(le_bytes(v), 0) == v,
{
    let b = le_bytes(v);
    let b0 = b[0];
    let b1 = b[1];
    let b2 = b[2];
    let b3 = b[3];
    assert(((b0 as u32) | ((b1 as u32) << 8u32) | ((b2 as u32) << 16u32) | ((b3 as u32)
        << 24u32)) == v) by (bit_vector)
        requires
            b0 == (v & 0xff) as u8,
            b1 == ((v >> 8u32) & 0xff) as u8,
            b2 == ((v >> 16u32) & 0xff) as u8,
            b3 == ((v >> 24u32) & 0xff) as u8,
    ;
}

proof fn lemma_trim_padding(b: Seq<u8>, n: nat)
    requires
        b.len() == 0 || b.last() != 0,
    ensures
        trim_zeros(b + zeros(n)) == b,
    decreases n,
{
    if n == 0 {
        assert(b + zeros(0) =~= b);
    } else {
        let f = b + zeros(n);
        assert(f.drop_last() =~= b + zeros((n - 1) as nat));
        lemma_trim_padding(b, (n - 1) as nat);
    }
}

/// A valid name reads back from its field unchanged.
pub proof fn lemma_name_round_trip(name: Seq<char>)
    requires
        valid_name(name),
    ensures
        name_field(name).len() == 32,
        read_name(name_field(name)) == Ok::<Seq<char>, DecodeError>(name),
{
    let b = encode_utf8(name);
    encode_utf8_valid_utf8(name);
    encode_utf8_decode_utf8(name);
    if b.len() == 32 {
        assert(b.take(32) =~= b);
        assert(b + zeros(0) =~= b);
        lemma_trim_padding(b, 0);
    } else {
        lemma_trim_padding(b, (32 - b.len()) as nat);
    }
}

/// `b` holds `e` from `pos` on.
pub open spec fn holds_at(b: Seq<u8>, pos: int, e: Seq<u8>) -> bool {
    0 <= pos && pos + e.len() <= b.len() && b.subrange(pos, pos + e.len()) == e
}

pub proof fn lemma_holds_split(b: Seq<u8>, pos: int, x: Seq<u8>, y: Seq<u8>)
    requires
        holds_at(b, pos, x + y),
    ensures
        holds_at(b, pos, x),
        holds_at(b, pos + x.len(), y),
{
    assert(b.subrange(pos, pos + x.len()) =~= x) by {
        assert forall|k: int| 0 <= k < x.len() implies b.subrange(pos, pos + x.len())[k] == x[k] by {
            assert(b.subrange(pos, pos + (x + y).len())[k] == (x + y)[k]);
        }
    }
    assert(b.subrange(pos + x.len(), pos + x.len() + y.len()) =~= y) by {
        assert forall|k: int| 0 <= k < y.len() implies b.subrange(
            pos + x.len(),
            pos + x.len() + y.len(),
        )[k] == y[k] by {
            assert(b.subrange(pos, pos + (x + y).len())[x.len() + k] == (x + y)[x.len() + k]);
        }
    }
}

/// `b` ends inside `e`, which it holds from `pos` on up to its end.
pub open spec fn prefix_at(b: Seq<u8>, pos: int, e: Seq<u8>) -> bool {
    0 <= pos <= b.len() < pos + e.len() && b.subrange(pos, b.len() as int) == e.take(b.len() - pos)
}

/// Where `b` ends inside `x + y`, it ends inside `x`, or it holds `x` and ends
/// inside `y`.
pub proof fn lemma_prefix_split(b: Seq<u8>, pos: int, x: Seq<u8>, y: Seq<u8>)
    requires
        prefix_at(b, pos, x + y),
    ensures
        prefix_at(b, pos, x) || (holds_at(b, pos, x) && prefix_at(b, pos + x.len(), y)),
{
    let n = b.len() - pos;
    assert forall|k: int| 0 <= k < n implies b[pos + k] == (x + y)[k] by {
        assert(b.subrange(pos, b.len() as int)[k] == (x + y).take(n)[k]);
    }
    if n < x.len() {
        assert(b.subrange(pos, b.len() as int) =~= x.take(n));
    } else {
        assert(b.subrange(pos, pos + x.len()) =~= x);
        assert(b.subrange(pos + x.len(), b.len() as int) =~= y.take(n - x.len()));
    }
}

/// Appends the little-endian bytes of `v`.
pub fn push_le_u32(out: &mut Vec<u8>, v: u32)
    ensures
        final(out)@ == old(out)@ + le_bytes(v),
{
    out.push((v & 0xff) as u8);
    out.push(((v >> 8u32) & 0xff) as u8);
    out.push(((v >> 16u32) & 0xff) as u8);
    out.push(((v >> 24u32) & 0xff) as u8);
    assert(final(out)@ =~= old(out)@ + le_bytes(v));
}

/// Appends the cooldown, if there is one.
pub fn push_cooldown(out: &mut Vec<u8>, c: Option<u32>)
    ensures
        final(out)@ == old(out)@ + cooldown_bytes(c),
{
    match c {
        Some(v) => push_le_u32(out, v),
        None => {
            assert(old(out)@ + cooldown_bytes(c) =~= old(out)@);
        },
    }
}

/// Reads the little-endian `u32` at `pos`.
pub fn read_le_u32(b: &[u8], pos: usize) -> (r: u32)
    requires
        pos + 4 <= b@.len(),
    ensures
        r == le_value(b@, pos as int),
{
    (b[pos] as u32) | ((b[pos + 1] as u32) << 8u32) | ((b[pos + 2] as u32) << 16u32) | ((b[pos
        + 3] as u32) << 24u32)
}

proof fn lemma_name_field_index(name: Seq<char>, j: int)
    requires
        0 <= j < 32,
    ensures
        name_field(name).len() == 32,
        name_field(name)[j] == (if j < encode_utf8(name).len() {
            encode_utf8(name)[j]
        } else {
            0u8
        }),
{
}

/// Appends the 32-byte field that holds `name`.
pub fn push_name(out: &mut Vec<u8>, name: &str)
    ensures
        final(out)@ == old(out)@ + name_field(name@),
{
    let bytes = name.as_bytes();
    let ghost start = out@;
    let ghost enc = encode_utf8(name@);
    assert(bytes@ == enc);
    let mut i: usize = 0;
    while i < FIELD_LEN
        invariant
            i <= 32,
            enc == encode_utf8(name@),
            bytes@ == enc,
            out@ == start + name_field(name@).take(i as int),
        decreases 32 - i,
    {
        proof {
            lemma_name_field_index(name@, i as int);
        }
        let byte: u8 = if i < bytes.len() {
            bytes[i]
        } else {
            0u8
        };
        out.push(byte);
        assert(name_field(name@).take(i + 1) =~= name_field(name@).take(i as int).push(byte));
        assert(out@ =~= start + name_field(name@).take(i + 1));
        i = i + 1;
    }
    proof {
        lemma_name_field_index(name@, 0);
    }
    assert(name_field(name@).take(32) =~= name_field(name@));
}

/// A copy of `v`.
pub fn copy_bytes(v: &Vec<u8>) -> (r: Vec<u8>)
    ensures
        r@ == v@,
{
    let mut r: Vec<u8> = Vec::new();
    let mut i: usize = 0;
    while i < v.len()
        invariant
            i <= v@.len(),
            r@ == v@.take(i as int),
        decreases v.len() - i,
    {
        r.push(v[i]);
        i = i + 1;
        assert(r@ =~= v@.take(i as int));
    }
    assert(v@.take(v@.len() as int) =~= v@);
    r
}

/// Relies on `core::str::from_utf8`: it accepts exactly the well-formed UTF-8
/// byte strings, and the text it returns has those bytes' characters.
#[verifier::external_body]
fn utf8_text(bytes: &[u8]) -> (r: Option<String>)
    ensures
        r is Some <==> valid_utf8(bytes@),
        r matches Some(s) ==> s@ == decode_utf8(bytes@),
{
    match core::str::from_utf8(bytes) {
        Ok(s) => Some(s.to_string()),
        Err(_) => None,
    }
}

/// Reads the name field at `pos`.
pub fn read_name_at(b: &[u8], pos: usize) -> (r: Result<String, DecodeError>)
    requires
        pos + 32 <= b@.len(),
    ensures
        match read_name(b@.subrange(pos as int, pos + 32)) {
            Ok(s) => r matches Ok(t) && t@ == s,
            Err(e) => r == Err::<String, DecodeError>(e),
        },
{
    let ghost field = b@.subrange(pos as int, pos + 32);
    let mut end: usize = FIELD_LEN;
    while end > 0 && b[pos + end - 1] == 0
        invariant
            end <= 32,
            pos + 32 <= b.len(),
            field == b@.subrange(pos as int, pos + 32),
            trim_zeros(field) == trim_zeros(field.take(end as int)),
        decreases end,
    {
        assert(field.take(end as int).drop_last() =~= field.take(end - 1));
        end = end - 1;
    }
    assert(trim_zeros(field.take(end as int)) == field.take(end as int));
    let mut text: Vec<u8> = Vec::new();
    let mut i: usize = 0;
    while i < end
        invariant
            i <= end <= 32,
            pos + 32 <= b.len(),
            text@ == b@.subrange(pos as int, pos + i),
        decreases end - i,
    {
        text.push(b[pos + i]);
        i = i + 1;
        assert(text@ =~= b@.subrange(pos as int, pos + i));
    }
    assert(text@ =~= field.take(end as int));
    match utf8_text(text.as_slice()) {
        Some(s) => Ok(s),
        None => Err(DecodeError::InvalidUtf8),
    }
}

} // verus!
