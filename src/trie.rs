//! Lookups in a double-array trie over byte-string keys.
use vstd::prelude::*;

use crate::word_entry::le_u32;

verus! {

/// The unit at index `i` of a double array: four little-endian bytes.
pub open spec fn unit_at(t: Seq<u8>, i: int) -> u32 {
    le_u32(t[4 * i], t[4 * i + 1], t[4 * i + 2], t[4 * i + 3]) as u32
}

/// Bit 31: the unit is a leaf, holding a value.
pub open spec fn unit_is_leaf(u: u32) -> bool {
    u >> 31u32 == 1
}

/// Bit 8: the unit has a leaf child.
pub open spec fn unit_has_leaf(u: u32) -> bool {
    (u >> 8u32) & 1u32 == 1
}

/// The child offset of a unit: bits 10 and up, shifted by 8 more where bit 9 is set.
pub open spec fn unit_offset(u: u32) -> u32 {
    (u >> 10u32) << ((u & 512u32) >> 6u32)
}

/// The number of units in a double array.
pub open spec fn unit_count(t: Seq<u8>) -> int {
    t.len() as int / 4
}

/// Unit `i` of a well-formed double array: where it is not a leaf, each of
/// its 256 possible children (`offset ^ i ^ c`, `c` a byte) lies inside the
/// array, which the bound on `(offset ^ i) | 255` says at once; and where it
/// has a leaf child, the unit at `offset ^ i` is a leaf.
pub open spec fn unit_ok(t: Seq<u8>, i: int) -> bool {
    let u = unit_at(t, i);
    let base = unit_offset(u) ^ (i as u32);
    !unit_is_leaf(u) ==> {
        &&& ((base | 255u32) as int) < unit_count(t)
        &&& unit_has_leaf(u) ==> unit_is_leaf(unit_at(t, base as int))
    }
}

/// Whether `t` is a double array that yada's walks can follow without
/// leaving it or meeting a leaf where they expect an inner node: a non-empty
/// whole number of units, below 2^32 bytes, whose root is not a leaf and
/// whose every unit is well formed.
pub open spec fn trie_wf(t: Seq<u8>) -> bool {
    &&& t.len() > 0
    &&& t.len() % 4 == 0
    &&& t.len() < 0x1_0000_0000
    &&& !unit_is_leaf(unit_at(t, 0))
    &&& forall|i: int| 0 <= i < unit_count(t) ==> #[trigger] unit_ok(t, i)
}

/// In a well-formed double array, every child of an inner unit lies inside it.
pub proof fn lemma_children_in_bounds(t: Seq<u8>, i: int, c: u32)
    requires
        trie_wf(t),
        0 <= i < unit_count(t),
        !unit_is_leaf(unit_at(t, i)),
        c < 256,
    ensures
        ((unit_offset(unit_at(t, i)) ^ (i as u32) ^ c) as int) < unit_count(t),
{
    assert(unit_ok(t, i));
    let x = unit_offset(unit_at(t, i)) ^ (i as u32);
    assert((x ^ c) <= (x | 255u32)) by (bit_vector)
        requires
            c < 256u32,
    ;
}

fn read_unit(t: &[u8], i: usize) -> (r: u32)
    requires
        4 * i + 4 <= t@.len(),
    ensures
        r == unit_at(t@, i as int),
{
    let len = t.len();
    let a = 4 * i;
    t[a] as u32 + 256 * (t[a + 1] as u32) + 65536 * (t[a + 2] as u32) + 16777216 * (t[a + 3] as u32)
}

/// Checks that `t` is a well-formed double array.
pub fn check_trie(t: &[u8]) -> (r: bool)
    ensures
        r == trie_wf(t@),
{
    let len = t.len();
    if len == 0 || len % 4 != 0 || len as u64 >= 0x1_0000_0000u64 {
        return false;
    }
    let n = len / 4;
    let root = read_unit(t, 0);
    if root >> 31u32 == 1 {
        return false;
    }
    let mut i: usize = 0;
    while i < n
        invariant
            n == unit_count(t@),
            len == t@.len(),
            len % 4 == 0,
            len < 0x1_0000_0000,
            i <= n,
            forall|j: int| 0 <= j < i ==> #[trigger] unit_ok(t@, j),
        decreases n - i,
    {
        let u = read_unit(t, i);
        if u >> 31u32 != 1 {
            assert((u & 512u32) >> 6u32 <= 8u32) by (bit_vector);
            let base: u32 = ((u >> 10u32) << ((u & 512u32) >> 6u32)) ^ (i as u32);
            assert(base <= (base | 255u32)) by (bit_vector);
            if (base | 255u32) as usize >= n {
                assert(!unit_ok(t@, i as int));
                return false;
            }
            if (u >> 8u32) & 1u32 == 1 {
                let child = read_unit(t, base as usize);
                if child >> 31u32 != 1 {
                    assert(!unit_ok(t@, i as int));
                    return false;
                }
            }
        }
        assert(unit_ok(t@, i as int));
        i += 1;
    }
    true
}

/// The value that the double array `trie` stores for exactly the key `key`.
pub uninterp spec fn trie_value(trie: Seq<u8>, key: Seq<u8>) -> Option<u32>;

/// Whether a byte string holds a NUL byte, which no trie key can hold.
pub open spec fn has_nul(k: Seq<u8>) -> bool {
    exists|i: int| 0 <= i < k.len() && k[i] == 0
}

/// The (value, prefix length) pairs for the prefixes of `key` of length
/// 1 to `n` that are keys of `trie`, shortest first; a NUL byte ends the walk.
pub open spec fn hits_upto(trie: Seq<u8>, key: Seq<u8>, n: nat) -> Seq<(u32, usize)>
    decreases n,
{
    if n == 0 {
        seq![]
    } else {
        let earlier = hits_upto(trie, key, (n - 1) as nat);
        let p = key.subrange(0, n as int);
        if !has_nul(p) && trie_value(trie, p) is Some {
            earlier.push((trie_value(trie, p)->0, n as usize))
        } else {
            earlier
        }
    }
}

/// Every non-empty prefix of `key` that is a key of `trie`, shortest first.
pub open spec fn prefix_hits(trie: Seq<u8>, key: Seq<u8>) -> Seq<(u32, usize)> {
    hits_upto(trie, key, key.len())
}

/// Relies on yada's `DoubleArray::exact_match_search`: the value stored for
/// the key, if any. It asserts that the key holds no NUL byte, and its unit
/// reads and leaf assertions hold on a well-formed double array.
#[verifier::external_body]
pub(crate) fn trie_exact(trie: &[u8], key: &[u8]) -> (r: Option<u32>)
    requires
        trie_wf(trie@),
        !has_nul(key@),
    ensures
        r == trie_value(trie@, key@),
{
    yada::DoubleArray::new(trie).exact_match_search(key)
}

/// Relies on yada's `DoubleArray::common_prefix_search`: it walks the key one
/// byte at a time and yields, shortest first, the value stored for each
/// non-empty prefix that is a key, the value `exact_match_search` gives.
#[verifier::external_body]
pub(crate) fn trie_prefixes(trie: &[u8], key: &[u8]) -> (r: Vec<(u32, usize)>)
    requires
        trie_wf(trie@),
        !has_nul(key@),
    ensures
        r@ == prefix_hits(trie@, key@),
{
    yada::DoubleArray::new(trie).common_prefix_search(key).collect()
}

/// The offset of the first NUL byte of `key`, or its length if it has none.
pub fn first_nul(key: &[u8]) -> (z: usize)
    ensures
        z <= key@.len(),
        !has_nul(key@.subrange(0, z as int)),
        z < key@.len() ==> key@[z as int] == 0,
{
    let mut i: usize = 0;
    while i < key.len()
        invariant
            i <= key@.len(),
            forall|j: int| 0 <= j < i ==> key@[j] != 0,
        decreases key@.len() - i,
    {
        if key[i] == 0 {
            assert(!has_nul(key@.subrange(0, i as int))) by {
                assert forall|j: int| 0 <= j < i implies key@.subrange(0, i as int)[j] != 0 by {
                    assert(key@.subrange(0, i as int)[j] == key@[j]);
                }
            }
            return i;
        }
        i += 1;
    }
    assert(!has_nul(key@.subrange(0, i as int))) by {
        assert forall|j: int| 0 <= j < i implies key@.subrange(0, i as int)[j] != 0 by {
            assert(key@.subrange(0, i as int)[j] == key@[j]);
        }
    }
    i
}

/// Cutting a key at its first NUL byte leaves its prefix hits as they are.
pub proof fn lemma_hits_cut_at_nul(trie: Seq<u8>, key: Seq<u8>, z: nat, n: nat)
    requires
        z <= key.len(),
        n <= key.len(),
        z < key.len() ==> key[z as int] == 0,
    ensures
        n <= z ==> hits_upto(trie, key.subrange(0, z as int), n) == hits_upto(trie, key, n),
        n > z ==> hits_upto(trie, key, n) == hits_upto(trie, key, z),
    decreases n,
{
    if n > 0 {
        lemma_hits_cut_at_nul(trie, key, z, (n - 1) as nat);
        if n <= z {
            assert(key.subrange(0, z as int).subrange(0, n as int) =~= key.subrange(0, n as int));
        } else {
            let p = key.subrange(0, n as int);
            assert(p[z as int] == 0);
            assert(has_nul(p));
        }
    }
}

/// Whether `key` holds a NUL byte.
pub fn contains_nul(key: &[u8]) -> (r: bool)
    ensures
        r == has_nul(key@),
{
    let mut i: usize = 0;
    while i < key.len()
        invariant
            i <= key@.len(),
            forall|j: int| 0 <= j < i ==> key@[j] != 0,
        decreases key@.len() - i,
    {
        if key[i] == 0 {
            return true;
        }
        i += 1;
    }
    false
}

} // verus!
