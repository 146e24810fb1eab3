//! Names, addresses and the wildcards among them, and how a lookup by key
//! settles on an entry.
use vstd::prelude::*;
use vstd::utf8::*;

verus! {

/// The name under which a module is granted.
pub type ModuleName = String;

/// The name under which a method is granted.
pub type MethodName = String;

/// A smart contract's 32-byte address.
pub type ContractAddress = [u8; 32];

/// The module or method name that stands for every name.
pub const WILDCARD: &'static str = "*";

/// The contract address that stands for every address.
pub const CONTRACT_WILDCARD: ContractAddress = [
    0, 0, 0, 0, 0, 0, 0, 0, 0, 0, 0, 0, 0, 0, 0, 0,
    0, 0, 0, 0, 0, 0, 0, 0, 0, 0, 0, 0, 0, 0, 0, 0,
];

/// The wildcard name, as characters.
pub open spec fn wildcard_name() -> Seq<char> {
    seq!['*']
}

/// The wildcard address, as bytes.
pub open spec fn wildcard_address() -> Seq<u8> {
    Seq::new(32, |_i: int| 0u8)
}

/// Where a lookup of `target` among `keys` settles: the first entry keyed
/// `target`; failing that, the last entry keyed `wild`; failing that, nowhere.
pub open spec fn resolve<K>(keys: Seq<K>, target: K, wild: K) -> Option<int> {
    if exists|i: int| 0 <= i < keys.len() && keys[i] == target {
        Some(
            choose|i: int|
                0 <= i < keys.len() && keys[i] == target && forall|j: int|
                    0 <= j < i ==> keys[j] != target,
        )
    } else if exists|i: int| 0 <= i < keys.len() && keys[i] == wild {
        Some(
            choose|i: int|
                0 <= i < keys.len() && keys[i] == wild && forall|j: int|
                    i < j < keys.len() ==> keys[j] != wild,
        )
    } else {
        None
    }
}

/// Where `resolve` settles holds an entry keyed by the target or by the
/// wildcard.
pub proof fn lemma_resolve_found<K>(keys: Seq<K>, target: K, wild: K)
    ensures
        resolve(keys, target, wild) matches Some(i) ==> 0 <= i < keys.len() && (keys[i] == target
            || keys[i] == wild),
{
    if exists|i: int| 0 <= i < keys.len() && keys[i] == target {
        let w = choose|i: int| 0 <= i < keys.len() && keys[i] == target;
        lemma_first_exists(keys, target, w);
    } else if exists|i: int| 0 <= i < keys.len() && keys[i] == wild {
        let w = choose|i: int| 0 <= i < keys.len() && keys[i] == wild;
        lemma_last_exists(keys, wild, w);
    }
}

proof fn lemma_first_exists<K>(keys: Seq<K>, k: K, w: int)
    requires
        0 <= w < keys.len(),
        keys[w] == k,
    ensures
        exists|i: int| 0 <= i < keys.len() && keys[i] == k && forall|j: int| 0 <= j < i ==> keys[j] != k,
    decreases w,
{
    if exists|j: int| 0 <= j < w && keys[j] == k {
        let j = choose|j: int| 0 <= j < w && keys[j] == k;
        lemma_first_exists(keys, k, j);
    } else {
        assert(forall|j: int| 0 <= j < w ==> keys[j] != k);
    }
}

proof fn lemma_last_exists<K>(keys: Seq<K>, k: K, w: int)
    requires
        0 <= w < keys.len(),
        keys[w] == k,
    ensures
        exists|i: int| 0 <= i < keys.len() && keys[i] == k && forall|j: int| i < j < keys.len() ==> keys[j] != k,
    decreases keys.len() - w,
{
    if exists|j: int| w < j < keys.len() && keys[j] == k {
        let j = choose|j: int| w < j < keys.len() && keys[j] == k;
        lemma_last_exists(keys, k, j);
    } else {
        assert(forall|j: int| w < j < keys.len() ==> keys[j] != k);
    }
}

/// Wildcard precedence: a lookup settles on an entry keyed by the target
/// whenever there is one, wherever wildcard entries stand; it falls back to a
/// wildcard entry only when no key matches, and finds nothing when neither
/// kind of key is there.
pub proof fn lemma_exact_match_wins<K>(keys: Seq<K>, target: K, wild: K)
    ensures
        (exists|i: int| 0 <= i < keys.len() && keys[i] == target) ==> (resolve(
            keys,
            target,
            wild,
        ) matches Some(i) && keys[i] == target),
        !(exists|i: int| 0 <= i < keys.len() && keys[i] == target) && (exists|i: int|
            0 <= i < keys.len() && keys[i] == wild) ==> (resolve(keys, target, wild) matches Some(
            i,
        ) && keys[i] == wild),
        !(exists|i: int| 0 <= i < keys.len() && keys[i] == target) && !(exists|i: int|
            0 <= i < keys.len() && keys[i] == wild) ==> resolve(keys, target, wild) is None,
{
    lemma_resolve_found(keys, target, wild);
    if exists|i: int| 0 <= i < keys.len() && keys[i] == target {
        let w = choose|i: int| 0 <= i < keys.len() && keys[i] == target;
        lemma_first_exists(keys, target, w);
    }
}

/// `resolve` settles on `i` when `i` holds the first exact match.
pub proof fn lemma_resolve_exact<K>(keys: Seq<K>, target: K, wild: K, i: int)
    requires
        0 <= i < keys.len(),
        keys[i] == target,
        forall|j: int| 0 <= j < i ==> keys[j] != target,
    ensures
        resolve(keys, target, wild) == Some(i),
{
    let k = choose|k: int|
        0 <= k < keys.len() && keys[k] == target && forall|j: int| 0 <= j < k ==> keys[j] != target;
    assert(0 <= k < keys.len() && keys[k] == target && forall|j: int|
        0 <= j < k ==> keys[j] != target);
    if k < i {
        assert(keys[k] != target);
    }
    if i < k {
        assert(keys[i] != target);
    }
}

/// `resolve` settles on `i` when no key matches exactly and `i` holds the
/// last wildcard.
pub proof fn lemma_resolve_wild<K>(keys: Seq<K>, target: K, wild: K, i: int)
    requires
        0 <= i < keys.len(),
        keys[i] == wild,
        forall|j: int| i < j < keys.len() ==> keys[j] != wild,
        forall|j: int| 0 <= j < keys.len() ==> keys[j] != target,
    ensures
        resolve(keys, target, wild) == Some(i),
{
    let k = choose|k: int|
        0 <= k < keys.len() && keys[k] == wild && forall|j: int|
            k < j < keys.len() ==> keys[j] != wild;
    assert(0 <= k < keys.len() && keys[k] == wild && forall|j: int|
        k < j < keys.len() ==> keys[j] != wild);
    if k < i {
        assert(keys[i] != wild);
    }
    if i < k {
        assert(keys[k] != wild);
    }
}

/// Whether two texts are the same, compared byte by byte.
pub fn same_text(a: &str, b: &str) -> (r: bool)
    ensures
        r == (a@ == b@),
{
    let x = a.as_bytes();
    let y = b.as_bytes();
    proof {
        encode_utf8_decode_utf8(a@);
        encode_utf8_decode_utf8(b@);
    }
    if x.len() != y.len() {
        return false;
    }
    let mut i: usize = 0;
    while i < x.len()
        invariant
            x@ == encode_utf8(a@),
            y@ == encode_utf8(b@),
            decode_utf8(encode_utf8(a@)) == a@,
            decode_utf8(encode_utf8(b@)) == b@,
            x@.len() == y@.len(),
            forall|j: int| 0 <= j < i ==> x@[j] == y@[j],
        decreases x.len() - i,
    {
        if x[i] != y[i] {
            return false;
        }
        i = i + 1;
    }
    assert(x@ =~= y@);
    true
}

/// Whether two addresses are the same.
pub fn same_address(a: &ContractAddress, b: &ContractAddress) -> (r: bool)
    ensures
        r == (a@ == b@),
{
    let mut i: usize = 0;
    while i < 32
        invariant
            forall|j: int| 0 <= j < i ==> a@[j] == b@[j],
        decreases 32 - i,
    {
        if a[i] != b[i] {
            return false;
        }
        i = i + 1;
    }
    assert(a@ =~= b@);
    true
}

/// Whether `name` is the wildcard name.
pub fn is_wildcard_name(name: &str) -> (r: bool)
    ensures
        r == (name@ == wildcard_name()),
{
    let wild: &str = "*";
    proof {
        reveal_strlit("*");
        assert(wild@ =~= wildcard_name());
    }
    same_text(name, wild)
}

/// Whether `address` is the wildcard address.
pub fn is_wildcard_address(address: &ContractAddress) -> (r: bool)
    ensures
        r == (address@ == wildcard_address()),
{
    let w: ContractAddress = CONTRACT_WILDCARD;
    assert(w@ =~= wildcard_address());
    same_address(address, &w)
}

} // verus!
