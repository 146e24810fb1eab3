//! A grant to call methods of one runtime module, or of every module through
//! the wildcard name.
//!
//! Layout: a byte holding the method count less one, shifted left by one, with
//! bit 0 announcing a cooldown; the 32-byte name field; the cooldown as a
//! little-endian `u32` if announced; then each method grant in order.
use vstd::prelude::*;

use crate::error::DecodeError;
use crate::names::{
    is_wildcard_name, lemma_resolve_exact, lemma_resolve_wild, resolve, same_text, wildcard_name,
    MethodName,
};
use crate::v0::MAX_METHODS;
use crate::parsed::{blobs_view, Parsed};
use crate::v0::method::{
    blobs_of, lemma_method_prefix, lemma_method_round_trip, method_bytes, method_encodable, parse_method, valid_method, Method,
    MethodView,
};
use crate::wire::{
    cooldown_bytes, le_bytes, le_value, lemma_le_round_trip, lemma_name_round_trip, name_field,
    copy_bytes, holds_at, lemma_prefix_split, prefix_at, push_cooldown, push_name, read_le_u32,
    read_name, read_name_at, valid_name,
};

verus! {

/// Flag bit announcing a cooldown.
const BLOCK_COOLDOWN_MASK: u8 = 0b0000_0001;

/// Permission to call methods of the module `name`; `methods` is kept in
/// insertion order, keyed by name.
#[derive(Clone, Debug, PartialEq, Eq)]
pub struct Module {
    pub name: String,
    pub block_cooldown: Option<u32>,
    pub methods: Vec<(MethodName, Method)>,
}

/// A module grant as plain values.
pub struct ModuleView {
    pub name: Seq<char>,
    pub block_cooldown: Option<u32>,
    pub methods: Seq<(Seq<char>, MethodView)>,
}

/// The view of keyed method grants.
pub open spec fn methods_view(ms: Seq<(MethodName, Method)>) -> Seq<(Seq<char>, MethodView)> {
    ms.map_values(|e: (MethodName, Method)| (e.0@, e.1@))
}

/// The keys of keyed entries.
pub open spec fn keys_of<V>(entries: Seq<(Seq<char>, V)>) -> Seq<Seq<char>> {
    entries.map_values(|e: (Seq<char>, V)| e.0)
}

impl View for Module {
    type V = ModuleView;

    open spec fn view(&self) -> ModuleView {
        ModuleView {
            name: self.name@,
            block_cooldown: self.block_cooldown,
            methods: methods_view(self.methods@),
        }
    }
}

/// The first byte of a module grant.
pub open spec fn module_flag(m: ModuleView) -> u8 {
    ((m.methods.len() - 1) * 2 + (if m.block_cooldown is Some {
        1int
    } else {
        0int
    })) as u8
}

/// The bytes of method grants, one after another.
pub open spec fn methods_bytes(ms: Seq<(Seq<char>, MethodView)>) -> Seq<u8>
    decreases ms.len(),
{
    if ms.len() == 0 {
        Seq::empty()
    } else {
        methods_bytes(ms.drop_last()) + method_bytes(ms.last().1)
    }
}

/// The constraint programs of method grants, in order.
pub open spec fn methods_blobs(ms: Seq<(Seq<char>, MethodView)>) -> Seq<Seq<u8>>
    decreases ms.len(),
{
    if ms.len() == 0 {
        Seq::empty()
    } else {
        methods_blobs(ms.drop_last()) + blobs_of(ms.last().1)
    }
}

/// Whether the layout can carry a module grant: 1 to 128 methods, each of
/// which it can carry.
pub open spec fn module_encodable(m: ModuleView) -> bool {
    &&& 1 <= m.methods.len() <= 128
    &&& forall|i: int| 0 <= i < m.methods.len() ==> method_encodable(#[trigger] m.methods[i].1)
}

/// The bytes of a module grant that the layout can carry.
pub open spec fn module_bytes(m: ModuleView) -> Seq<u8> {
    seq![module_flag(m)] + name_field(m.name) + cooldown_bytes(m.block_cooldown) + methods_bytes(
        m.methods,
    )
}

/// The encoding of a module grant: its bytes, or nothing when the layout
/// cannot carry it.
pub open spec fn encode_module(m: ModuleView) -> Seq<u8> {
    if module_encodable(m) {
        module_bytes(m)
    } else {
        Seq::empty()
    }
}

/// Keyed method grants that read back from their bytes: each valid and keyed
/// by its own name.
pub open spec fn valid_methods(ms: Seq<(Seq<char>, MethodView)>) -> bool {
    forall|i: int| 0 <= i < ms.len() ==> valid_method(#[trigger] ms[i].1) && ms[i].0 == ms[i].1.name
}

/// A module grant that reads back from its encoding.
pub open spec fn valid_module(m: ModuleView) -> bool {
    &&& valid_name(m.name)
    &&& 1 <= m.methods.len() <= 128
    &&& valid_methods(m.methods)
}

/// Reads `n` method grants from `pos` on: the grants read (each keyed by its
/// name) and the position after them, or the first error; with the constraint
/// programs of the grants read before stopping.
pub open spec fn parse_methods(b: Seq<u8>, pos: int, n: nat) -> (
    Result<(Seq<(Seq<char>, MethodView)>, int), DecodeError>,
    Seq<Seq<u8>>,
)
    decreases n,
{
    if n == 0 {
        (Ok((Seq::empty(), pos)), Seq::empty())
    } else {
        let (r, seen) = parse_methods(b, pos, (n - 1) as nat);
        match r {
            Err(e) => (Err(e), seen),
            Ok((ms, p)) => match parse_method(b, p) {
                Err(e) => (Err(e), seen),
                Ok((m, q)) => (Ok((ms.push((m.name, m)), q)), seen + blobs_of(m)),
            },
        }
    }
}

/// Reads a module grant at `pos`: the grant and the position after it, or
/// the first error; with the constraint programs read before stopping.
pub open spec fn parse_module(b: Seq<u8>, pos: int) -> (
    Result<(ModuleView, int), DecodeError>,
    Seq<Seq<u8>>,
) {
    if b.len() < pos + 33 {
        (Err(DecodeError::ShortBuffer), Seq::empty())
    } else {
        let flag = b[pos];
        let has_cooldown = flag % 2 == 1;
        let count = flag / 2 + 1;
        match read_name(b.subrange(pos + 1, pos + 33)) {
            Err(e) => (Err(e), Seq::empty()),
            Ok(name) => {
                let p = pos + 33;
                if has_cooldown && b.len() < p + 4 {
                    (Err(DecodeError::ShortBuffer), Seq::empty())
                } else {
                    let block_cooldown = if has_cooldown {
                        Some(le_value(b, p))
                    } else {
                        None
                    };
                    let q = if has_cooldown {
                        p + 4
                    } else {
                        p
                    };
                    let (r, seen) = parse_methods(b, q, count as nat);
                    match r {
                        Err(e) => (Err(e), seen),
                        Ok((methods, end)) => (
                            Ok((ModuleView { name, block_cooldown, methods }, end)),
                            seen,
                        ),
                    }
                }
            },
        }
    }
}

/// Once reading method grants has failed, reading more fails the same way.
proof fn lemma_methods_stop(b: Seq<u8>, pos: int, k: nat, n: nat)
    requires
        k <= n,
        parse_methods(b, pos, k).0 is Err,
    ensures
        parse_methods(b, pos, n) == parse_methods(b, pos, k),
    decreases n - k,
{
    if k < n {
        lemma_methods_stop(b, pos, k, (n - 1) as nat);
    }
}

proof fn lemma_methods_round_trip(ms: Seq<(Seq<char>, MethodView)>, b: Seq<u8>, pos: int)
    requires
        valid_methods(ms),
        0 <= pos,
        pos + methods_bytes(ms).len() <= b.len(),
        b.subrange(pos, pos + methods_bytes(ms).len()) == methods_bytes(ms),
    ensures
        parse_methods(b, pos, ms.len()) == (
            Ok::<(Seq<(Seq<char>, MethodView)>, int), DecodeError>(
                (ms, pos + methods_bytes(ms).len()),
            ),
            methods_blobs(ms),
        ),
    decreases ms.len(),
{
    if ms.len() > 0 {
        let init = ms.drop_last();
        let last = ms.last();
        let a = methods_bytes(init);
        let e = method_bytes(last.1);
        assert(methods_bytes(ms) == a + e);
        assert(valid_methods(init)) by {
            assert forall|i: int| 0 <= i < init.len() implies valid_method(#[trigger] init[i].1)
                && init[i].0 == init[i].1.name by {
                assert(init[i] == ms[i]);
            }
        }
        assert(b.subrange(pos, pos + a.len()) =~= a) by {
            assert forall|k: int| 0 <= k < a.len() implies b.subrange(pos, pos + a.len())[k]
                == a[k] by {
                assert(b.subrange(pos, pos + methods_bytes(ms).len())[k] == (a + e)[k]);
            }
        }
        lemma_methods_round_trip(init, b, pos);
        let p = pos + a.len();
        assert(b.subrange(p, p + e.len()) =~= e) by {
            assert forall|k: int| 0 <= k < e.len() implies b.subrange(p, p + e.len())[k]
                == e[k] by {
                assert(b.subrange(pos, pos + methods_bytes(ms).len())[a.len() + k] == (a + e)[a.len()
                    + k]);
            }
        }
        assert(valid_method(ms[ms.len() - 1].1));
        lemma_method_round_trip(last.1, b, p);
        assert(init.push((last.1.name, last.1)) =~= ms);
    } else {
        assert(ms =~= Seq::<(Seq<char>, MethodView)>::empty());
    }
}

/// A valid module grant reads back from its bytes wherever they stand,
/// reporting the constraint programs of its methods in order.
pub proof fn lemma_module_round_trip(m: ModuleView, b: Seq<u8>, pos: int)
    requires
        valid_module(m),
        0 <= pos,
        pos + module_bytes(m).len() <= b.len(),
        b.subrange(pos, pos + module_bytes(m).len()) == module_bytes(m),
    ensures
        parse_module(b, pos) == (
            Ok::<(ModuleView, int), DecodeError>((m, pos + module_bytes(m).len())),
            methods_blobs(m.methods),
        ),
{
    let e = module_bytes(m);
    lemma_name_round_trip(m.name);
    let nf = name_field(m.name);
    assert(b[pos] == e[0]);
    let flag = module_flag(m);
    assert(flag / 2 + 1 == m.methods.len());
    assert(b.subrange(pos + 1, pos + 33) =~= nf) by {
        assert forall|k: int| 0 <= k < 32 implies b.subrange(pos + 1, pos + 33)[k] == nf[k] by {
            assert(b[pos + 1 + k] == e[1 + k]);
        }
    }
    match m.block_cooldown {
        Some(v) => {
            lemma_le_round_trip(v);
            assert(le_value(b, pos + 33) == le_value(le_bytes(v), 0)) by {
                assert(b[pos + 33] == e[33]);
                assert(b[pos + 34] == e[34]);
                assert(b[pos + 35] == e[35]);
                assert(b[pos + 36] == e[36]);
            }
        },
        None => {},
    }
    let q = pos + 33 + cooldown_bytes(m.block_cooldown).len();
    let mb = methods_bytes(m.methods);
    let off = q - pos;
    assert(b.subrange(q, q + mb.len()) =~= mb) by {
        assert forall|k: int| 0 <= k < mb.len() implies b.subrange(q, q + mb.len())[k] == mb[k] by {
            assert(b[q + k] == e[off + k]);
        }
    }
    lemma_methods_round_trip(m.methods, b, q);
}

proof fn lemma_methods_prefix(ms: Seq<(Seq<char>, MethodView)>, b: Seq<u8>, pos: int)
    requires
        valid_methods(ms),
        prefix_at(b, pos, methods_bytes(ms)),
    ensures
        parse_methods(b, pos, ms.len()).0 == Err::<(Seq<(Seq<char>, MethodView)>, int), DecodeError>(
            DecodeError::ShortBuffer,
        ),
    decreases ms.len(),
{
    if ms.len() == 0 {
        assert(methods_bytes(ms).len() == 0);
    } else {
        let init = ms.drop_last();
        let last = ms.last();
        assert(valid_methods(init)) by {
            assert forall|i: int| 0 <= i < init.len() implies valid_method(#[trigger] init[i].1)
                && init[i].0 == init[i].1.name by {
                assert(init[i] == ms[i]);
            }
        }
        assert(valid_method(ms[ms.len() - 1].1));
        lemma_prefix_split(b, pos, methods_bytes(init), method_bytes(last.1));
        if prefix_at(b, pos, methods_bytes(init)) {
            lemma_methods_prefix(init, b, pos);
            lemma_methods_stop(b, pos, init.len(), ms.len());
        } else {
            assert(b.subrange(pos, pos + methods_bytes(init).len()) == methods_bytes(init));
            lemma_methods_round_trip(init, b, pos);
            lemma_method_prefix(last.1, b, pos + methods_bytes(init).len());
        }
    }
}

/// A valid module grant's bytes cut short read as `ShortBuffer`.
pub proof fn lemma_module_prefix(m: ModuleView, b: Seq<u8>, pos: int)
    requires
        valid_module(m),
        prefix_at(b, pos, module_bytes(m)),
    ensures
        parse_module(b, pos).0 == Err::<(ModuleView, int), DecodeError>(DecodeError::ShortBuffer),
{
    let e = module_bytes(m);
    let n = b.len() - pos;
    assert forall|k: int| 0 <= k < n implies b[pos + k] == e[k] by {
        assert(b.subrange(pos, b.len() as int)[k] == e.take(n)[k]);
    }
    if b.len() >= pos + 33 {
        lemma_name_round_trip(m.name);
        let nf = name_field(m.name);
        assert(b[pos] == e[0]);
        assert(module_flag(m) / 2 + 1 == m.methods.len());
        assert(b.subrange(pos + 1, pos + 33) =~= nf) by {
            assert forall|k: int| 0 <= k < 32 implies b.subrange(pos + 1, pos + 33)[k] == nf[k] by {
                assert(b[pos + 1 + k] == e[1 + k]);
            }
        }
        let head = seq![module_flag(m)] + nf + cooldown_bytes(m.block_cooldown);
        assert(e == head + methods_bytes(m.methods));
        lemma_prefix_split(b, pos, head, methods_bytes(m.methods));
        if !prefix_at(b, pos, head) {
            lemma_methods_prefix(m.methods, b, pos + head.len());
        }
    }
}

impl Module {
    /// A grant for the module `name`, without cooldown or methods.
    pub fn new(name: &str) -> (r: Self)
        ensures
            r@ == (ModuleView { name: name@, block_cooldown: None, methods: Seq::empty() }),
    {
        let r = Module { name: name.to_string(), block_cooldown: None, methods: Vec::new() };
        assert(r@.methods =~= Seq::empty());
        r
    }

    /// This grant with a cooldown of `block_cooldown` blocks.
    pub fn block_cooldown(self, block_cooldown: u32) -> (r: Self)
        ensures
            r@ == (ModuleView { block_cooldown: Some(block_cooldown), ..self@ }),
    {
        Module { name: self.name, block_cooldown: Some(block_cooldown), methods: self.methods }
    }

    /// This grant holding `methods`, in the order given.
    pub fn methods(self, methods: Vec<(MethodName, Method)>) -> (r: Self)
        ensures
            r@ == (ModuleView { methods: methods_view(methods@), ..self@ }),
    {
        Module { name: self.name, block_cooldown: self.block_cooldown, methods }
    }

    /// The method grant that a call of `method` falls under: the first grant
    /// keyed `method`, else the last keyed by the wildcard, else none.
    pub fn get_method(&self, method: &str) -> (r: Option<&Method>)
        ensures
            match resolve(keys_of(self@.methods), method@, wildcard_name()) {
                Some(i) => r matches Some(m) && *m == self.methods@[i].1,
                None => r is None,
            },
    {
        let ghost keys = keys_of(self@.methods);
        let mut outcome: Option<&Method> = None;
        let ghost mut wild: int = -1;
        let mut i: usize = 0;
        while i < self.methods.len()
            invariant
                i <= self.methods@.len(),
                keys == keys_of(self@.methods),
                keys.len() == self.methods@.len(),
                forall|j: int| 0 <= j < i ==> keys[j] != method@,
                -1 <= wild < i,
                wild == -1 ==> outcome is None && forall|j: int| 0 <= j < i ==> keys[j] != wildcard_name(),
                wild >= 0 ==> keys[wild] == wildcard_name() && (outcome matches Some(m) && *m
                    == self.methods@[wild].1),
                forall|j: int| wild < j < i ==> keys[j] != wildcard_name(),
            decreases self.methods.len() - i,
        {
            let entry = &self.methods[i];
            assert(keys[i as int] == self.methods@[i as int].0@);
            if same_text(entry.0.as_str(), method) {
                proof {
                    lemma_resolve_exact(keys, method@, wildcard_name(), i as int);
                }
                return Some(&entry.1);
            } else if is_wildcard_name(entry.0.as_str()) {
                outcome = Some(&entry.1);
                proof {
                    wild = i as int;
                }
            }
            i = i + 1;
        }
        proof {
            if wild >= 0 {
                lemma_resolve_wild(keys, method@, wildcard_name(), wild);
            }
        }
        outcome
    }

    /// Whether the layout can carry this grant: 1 to 128 methods, each of
    /// which it can carry.
    pub fn is_encodable(&self) -> (r: bool)
        ensures
            r == module_encodable(self@),
    {
        if self.methods.len() == 0 || self.methods.len() > MAX_METHODS {
            return false;
        }
        let mut i: usize = 0;
        while i < self.methods.len()
            invariant
                i <= self.methods@.len(),
                1 <= self.methods@.len() <= 128,
                forall|j: int| 0 <= j < i ==> method_encodable(#[trigger] self@.methods[j].1),
            decreases self.methods.len() - i,
        {
            assert(self@.methods[i as int].1 == self.methods@[i as int].1@);
            if !self.methods[i].1.is_encodable() {
                return false;
            }
            i = i + 1;
        }
        true
    }

    /// Appends the encoding of this grant: its bytes, or nothing when it holds
    /// no method, more than 128, or one that the layout cannot carry.
    pub fn encode_to(&self, out: &mut Vec<u8>)
        ensures
            final(out)@ == old(out)@ + encode_module(self@),
    {
        let ghost start = out@;
        if !self.is_encodable() {
            assert(out@ =~= start + encode_module(self@));
            return;
        }
        let count_less_one: u8 = (self.methods.len() - 1) as u8;
        let mut flag: u8 = count_less_one * 2;
        if self.block_cooldown.is_some() {
            flag = flag + BLOCK_COOLDOWN_MASK;
        }
        assert(flag == module_flag(self@));
        out.push(flag);
        push_name(out, self.name.as_str());
        push_cooldown(out, self.block_cooldown);
        let ghost mid = out@;
        let mut i: usize = 0;
        while i < self.methods.len()
            invariant
                i <= self.methods@.len(),
                module_encodable(self@),
                out@ == mid + methods_bytes(self@.methods.take(i as int)),
            decreases self.methods.len() - i,
        {
            assert(method_encodable(self@.methods[i as int].1));
            self.methods[i].1.encode_to(out);
            assert(self@.methods.take(i + 1).drop_last() =~= self@.methods.take(i as int));
            i = i + 1;
        }
        assert(self@.methods.take(self.methods@.len() as int) =~= self@.methods);
        assert(out@ =~= start + encode_module(self@));
    }

    /// The encoding of this grant: its bytes, or nothing when it holds no
    /// method, more than 128, or one that the layout cannot carry.
    pub fn encode(&self) -> (r: Vec<u8>)
        ensures
            r@ == encode_module(self@),
    {
        let mut out: Vec<u8> = Vec::new();
        self.encode_to(&mut out);
        assert(out@ =~= encode_module(self@));
        out
    }

    /// Decodes a grant from the start of `input`; bytes after it are left
    /// alone. The constraint programs read are handed back for the
    /// interpreter to judge.
    pub fn decode(input: &[u8]) -> (r: Parsed<Module>)
        ensures
            blobs_view(r.constraints@) == parse_module(input@, 0).1,
            match parse_module(input@, 0).0 {
                Ok((m, _)) => r.result matches Ok(x) && x@ == m,
                Err(e) => r.result == Err::<Module, DecodeError>(e),
            },
    {
        let mut seen: Vec<Vec<u8>> = Vec::new();
        assert(blobs_view(seen@) =~= Seq::empty());
        let result = match Module::decode_at(input, 0, &mut seen) {
            Ok((m, _)) => Ok(m),
            Err(e) => Err(e),
        };
        assert(blobs_view(seen@) =~= parse_module(input@, 0).1);
        Parsed { result, constraints: seen }
    }

    /// Reads a grant at `pos` of `b`; returns it with the position after it,
    /// and appends to `seen` the constraint programs read before stopping.
    pub(crate) fn decode_at(b: &[u8], pos: usize, seen: &mut Vec<Vec<u8>>) -> (r: Result<
        (Module, usize),
        DecodeError,
    >)
        requires
            pos <= b@.len(),
        ensures
            blobs_view(final(seen)@) == blobs_view(old(seen)@) + parse_module(b@, pos as int).1,
            r matches Ok((_, q)) ==> q <= b@.len(),
            match parse_module(b@, pos as int).0 {
                Ok((m, p)) => r matches Ok((x, q)) && x@ == m && q == p,
                Err(e) => r == Err::<(Module, usize), DecodeError>(e),
            },
    {
        let ghost seen0 = blobs_view(seen@);
        if b.len() - pos < 33 {
            assert(blobs_view(seen@) =~= seen0 + Seq::empty());
            return Err(DecodeError::ShortBuffer);
        }
        let flag: u8 = b[pos];
        let has_cooldown = flag & BLOCK_COOLDOWN_MASK == BLOCK_COOLDOWN_MASK;
        assert(has_cooldown == (flag % 2 == 1)) by (bit_vector)
            requires
                has_cooldown == (flag & 1u8 == 1u8),
        ;
        let count: usize = (flag / 2) as usize + 1;
        let name = match read_name_at(b, pos + 1) {
            Ok(name) => name,
            Err(e) => {
                assert(blobs_view(seen@) =~= seen0 + Seq::empty());
                return Err(e);
            },
        };
        let mut p: usize = pos + 33;
        let mut block_cooldown: Option<u32> = None;
        if has_cooldown {
            if b.len() - p < 4 {
                assert(blobs_view(seen@) =~= seen0 + Seq::empty());
                return Err(DecodeError::ShortBuffer);
            }
            block_cooldown = Some(read_le_u32(b, p));
            p = p + 4;
        }
        let ghost q = p as int;
        assert(blobs_view(seen@) =~= seen0 + parse_methods(b@, q, 0).1);
        assert(parse_module(b@, pos as int).1 == parse_methods(b@, q, count as nat).1);
        assert(parse_module(b@, pos as int).0 == match parse_methods(b@, q, count as nat).0 {
            Err(e) => Err(e),
            Ok((ms, end)) => Ok((ModuleView { name: name@, block_cooldown, methods: ms }, end)),
        });
        let mut methods: Vec<(MethodName, Method)> = Vec::new();
        assert(methods_view(methods@) =~= Seq::empty());
        let mut i: usize = 0;
        while i < count
            invariant
                i <= count,
                q <= p <= b@.len(),
                seen0 == blobs_view(old(seen)@),
                parse_module(b@, pos as int).1 == parse_methods(b@, q, count as nat).1,
                parse_module(b@, pos as int).0 == match parse_methods(b@, q, count as nat).0 {
                    Err(e) => Err(e),
                    Ok((ms, end)) => Ok((ModuleView { name: name@, block_cooldown, methods: ms }, end)),
                },
                blobs_view(seen@) == seen0 + parse_methods(b@, q, i as nat).1,
                parse_methods(b@, q, i as nat).0 == Ok::<
                    (Seq<(Seq<char>, MethodView)>, int),
                    DecodeError,
                >((methods_view(methods@), p as int)),
            decreases count - i,
        {
            match Method::decode_at(b, p) {
                Ok((m, next)) => {
                    let ghost before = blobs_view(seen@);
                    let ghost prev = methods@;
                    let ghost mv = m@;
                    match &m.constraints {
                        Some(c) => {
                            seen.push(copy_bytes(c));
                            assert(blobs_view(seen@) =~= before + blobs_of(m@));
                        },
                        None => {
                            assert(blobs_view(seen@) =~= before + blobs_of(m@));
                        },
                    }
                    let key = m.name.clone();
                    methods.push((key, m));
                    assert(methods_view(methods@) =~= methods_view(prev).push((mv.name, mv)));
                    p = next;
                },
                Err(e) => {
                    proof {
                        assert(parse_methods(b@, q, (i + 1) as nat).1 == parse_methods(b@, q, i as nat).1);
                        lemma_methods_stop(b@, q, (i + 1) as nat, count as nat);
                    }
                    return Err(e);
                },
            }
            i = i + 1;
        }
        let module = Module { name, block_cooldown, methods };
        assert(module@ == (ModuleView { name: name@, block_cooldown, methods: methods_view(methods@) }));
        Ok((module, p))
    }
}

} // verus!
