//! A trie over surface strings whose values address runs of word records.
use vstd::prelude::*;
use vstd::string::StringSliceAdditionalSpecFns;

use crate::error::DictionaryError;
use crate::trie::{
    check_trie, contains_nul, first_nul, trie_wf, has_nul, lemma_hits_cut_at_nul, prefix_hits, trie_exact, trie_prefixes, trie_value,
};
use crate::word_entry::{entry_from_bytes, le_u32, WordEntry, SERIALIZED_LEN};

verus! {

/// Number of records a packed trie value addresses: its low five bits.
pub open spec fn packed_count(v: u32) -> nat {
    (v % 32) as nat
}

/// Index, in records, of the first record a packed trie value addresses:
/// the bits above the low five.
pub open spec fn packed_offset(v: u32) -> nat {
    (v / 32) as nat
}

/// Whether the run that `v` addresses lies inside a buffer of `len` bytes.
pub open spec fn run_fits(len: nat, v: u32) -> bool {
    (packed_offset(v) + packed_count(v)) * SERIALIZED_LEN <= len
}

/// The records of the run that `v` addresses in `vals`.
pub open spec fn run_entries(vals: Seq<u8>, v: u32, is_system: bool) -> Seq<WordEntry> {
    Seq::new(
        packed_count(v),
        |i: int|
            entry_from_bytes(
                vals.subrange((packed_offset(v) + i) * SERIALIZED_LEN, vals.len() as int),
                is_system,
            ),
    )
}

/// Each record of the run of `v`, paired with the prefix length `n`.
pub open spec fn tagged_run(vals: Seq<u8>, v: u32, n: usize, is_system: bool) -> Seq<
    (usize, WordEntry),
> {
    run_entries(vals, v, is_system).map_values(|e: WordEntry| (n, e))
}

/// The records of all trie hits, flattened in hit order.
pub open spec fn expand_hits(vals: Seq<u8>, hits: Seq<(u32, usize)>, is_system: bool) -> Seq<
    (usize, WordEntry),
>
    decreases hits.len(),
{
    if hits.len() == 0 {
        seq![]
    } else {
        expand_hits(vals, hits.drop_last(), is_system) + tagged_run(
            vals,
            hits.last().0,
            hits.last().1,
            is_system,
        )
    }
}

/// Whether every hit addresses a run inside the values buffer.
pub open spec fn hits_fit(len: nat, hits: Seq<(u32, usize)>) -> bool {
    forall|i: int| 0 <= i < hits.len() ==> run_fits(len, #[trigger] hits[i].0)
}

/// Decodes the record count of a packed trie value.
pub fn packed_value_count(v: u32) -> (r: u32)
    ensures
        r == packed_count(v),
        r <= 31,
{
    let r = v & 31u32;
    assert(v & 31u32 == v % 32) by (bit_vector);
    r
}

/// Decodes the record offset of a packed trie value.
pub fn packed_value_offset(v: u32) -> (r: u32)
    ensures
        r == packed_offset(v),
{
    let r = v >> 5u32;
    assert(v >> 5u32 == v / 32) by (bit_vector);
    r
}

/// The list of strings that bincode reads from the start of `bytes`, if it
/// reads one.
pub uninterp spec fn bincode_strings(bytes: Seq<u8>) -> Option<Seq<Seq<char>>>;

/// Relies on `bincode::deserialize` (fixed-width integers, trailing bytes
/// allowed) reading a `Vec<String>` from the start of `bytes`; `None` where
/// it reports an error.
#[verifier::external_body]
fn decode_strings(bytes: &[u8]) -> (r: Option<Vec<String>>)
    ensures
        match r {
            Some(v) => bincode_strings(bytes@) == Some(v.deep_view()),
            None => bincode_strings(bytes@) is None,
        },
{
    bincode::deserialize::<Vec<String>>(bytes).ok()
}

/// Where the details of word `word` start in the details buffer: the
/// little-endian 32-bit value at index `word` of the index buffer.
pub open spec fn details_offset(idx: Seq<u8>, word: u32) -> Option<int> {
    let at = 4 * word as int;
    if at + 4 <= idx.len() {
        Some(le_u32(idx[at], idx[at + 1], idx[at + 2], idx[at + 3]))
    } else {
        None
    }
}

/// A dictionary of surface forms: the trie, the records it addresses, and the
/// buffers that resolve word ids to their details.
#[derive(Clone, Debug)]
pub struct PrefixDictionary {
    pub da: Vec<u8>,
    pub vals_data: Vec<u8>,
    pub words_idx_data: Vec<u8>,
    pub words_data: Vec<u8>,
    pub is_system: bool,
}

impl PrefixDictionary {
    /// The trie is a well-formed double array.
    pub open spec fn wf(&self) -> bool {
        trie_wf(self.da@)
    }

    /// What a common-prefix search of `key` returns.
    pub open spec fn prefix_spec(&self, key: Seq<u8>) -> Result<
        Seq<(usize, WordEntry)>,
        DictionaryError,
    > {
        let hits = prefix_hits(self.da@, key);
        if hits_fit(self.vals_data@.len(), hits) {
            Ok(expand_hits(self.vals_data@, hits, self.is_system))
        } else {
            Err(DictionaryError::LookupBounds)
        }
    }

    /// What an exact search of `key` returns: the empty key, like one with a
    /// NUL byte, names no word.
    pub open spec fn surface_spec(&self, key: Seq<u8>) -> Result<Seq<WordEntry>, DictionaryError> {
        if key.len() == 0 || has_nul(key) {
            Ok(seq![])
        } else {
            match trie_value(self.da@, key) {
                None => Ok(seq![]),
                Some(v) => if run_fits(self.vals_data@.len(), v) {
                    Ok(run_entries(self.vals_data@, v, self.is_system))
                } else {
                    Err(DictionaryError::LookupBounds)
                },
            }
        }
    }

    /// What looking up the details of word `word` gives.
    pub open spec fn details_spec(&self, word: u32) -> Result<Seq<Seq<char>>, DictionaryError> {
        match details_offset(self.words_idx_data@, word) {
            None => Err(DictionaryError::LookupBounds),
            Some(o) => if o > self.words_data@.len() {
                Err(DictionaryError::LookupBounds)
            } else {
                match bincode_strings(self.words_data@.subrange(o, self.words_data@.len() as int)) {
                    None => Err(DictionaryError::Format),
                    Some(v) => Ok(v),
                }
            },
        }
    }

    /// The detail fields (part of speech, readings, ...) of word `word`.
    pub fn word_details(&self, word: u32) -> (r: Result<Vec<String>, DictionaryError>)
        ensures
            r matches Ok(v) ==> self.details_spec(word) == Ok::<_, DictionaryError>(v.deep_view()),
            r matches Err(e) ==> self.details_spec(word) == Err::<Seq<Seq<char>>, _>(e),
    {
        let idx = &self.words_idx_data;
        let at = word as u64 * 4;
        if at + 4 > idx.len() as u64 {
            return Err(DictionaryError::LookupBounds);
        }
        let a = at as usize;
        let lo: u32 = idx[a] as u32 + 256 * (idx[a + 1] as u32);
        let hi: u32 = idx[a + 2] as u32 + 256 * (idx[a + 3] as u32);
        let offset: u64 = lo as u64 + 65536 * (hi as u64);
        if offset > self.words_data.len() as u64 {
            return Err(DictionaryError::LookupBounds);
        }
        let rest = self.words_data.as_slice().split_at(offset as usize).1;
        assert(rest@ =~= self.words_data@.subrange(offset as int, self.words_data@.len() as int));
        match decode_strings(rest) {
            None => Err(DictionaryError::Format),
            Some(v) => Ok(v),
        }
    }

    /// Assembles a system dictionary from its buffers; fails when the trie
    /// is not a well-formed double array.
    pub fn load(da_data: Vec<u8>, vals_data: Vec<u8>, words_idx_data: Vec<u8>, words_data: Vec<u8>) -> (r: Result<PrefixDictionary, DictionaryError>)
        ensures
            r is Err <==> !trie_wf(da_data@),
            r matches Err(e) ==> e == DictionaryError::Format,
            r matches Ok(d) ==> {
                &&& d.wf()
                &&& d.da@ == da_data@
                &&& d.vals_data@ == vals_data@
                &&& d.words_idx_data@ == words_idx_data@
                &&& d.words_data@ == words_data@
                &&& d.is_system
            },
    {
        if !check_trie(da_data.as_slice()) {
            return Err(DictionaryError::Format);
        }
        Ok(PrefixDictionary { da: da_data, vals_data, words_idx_data, words_data, is_system: true })
    }

    /// Appends the run that `v` addresses, each record tagged with `n`.
    fn push_run(&self, v: u32, n: usize, out: &mut Vec<(usize, WordEntry)>)
        requires
            run_fits(self.vals_data@.len(), v),
        ensures
            final(out)@ == old(out)@ + tagged_run(self.vals_data@, v, n, self.is_system),
    {
        let count = packed_value_count(v) as usize;
        let offset = packed_value_offset(v) as usize;
        let ghost start = old(out)@;
        let mut i: usize = 0;
        while i < count
            invariant
                i <= count,
                count == packed_count(v),
                offset == packed_offset(v),
                run_fits(self.vals_data@.len(), v),
                out@ == start + tagged_run(self.vals_data@, v, n, self.is_system).take(i as int),
            decreases count - i,
        {
            let at = (offset + i) * SERIALIZED_LEN;
            let e = WordEntry::deserialize(self.vals_data.as_slice().split_at(at).1, self.is_system);
            out.push((n, e));
            i += 1;
            assert(out@ =~= start + tagged_run(self.vals_data@, v, n, self.is_system).take(i as int));
        }
        assert(tagged_run(self.vals_data@, v, n, self.is_system).take(i as int)
            =~= tagged_run(self.vals_data@, v, n, self.is_system));
    }

    /// Every record whose surface is a non-empty byte prefix of `s`, paired
    /// with the prefix length, shortest prefix first.
    pub fn prefix(&self, s: &str) -> (r: Result<Vec<(usize, WordEntry)>, DictionaryError>)
        requires
            self.wf(),
        ensures
            match r {
                Ok(v) => self.prefix_spec(s.spec_bytes()) == Ok::<_, DictionaryError>(v@),
                Err(e) => self.prefix_spec(s.spec_bytes()) == Err::<Seq<(usize, WordEntry)>, _>(e),
            },
    {
        self.prefix_bytes(s.as_bytes())
    }

    /// `prefix` on a byte string.
    pub fn prefix_bytes(&self, key: &[u8]) -> (r: Result<Vec<(usize, WordEntry)>, DictionaryError>)
        requires
            self.wf(),
        ensures
            match r {
                Ok(v) => self.prefix_spec(key@) == Ok::<_, DictionaryError>(v@),
                Err(e) => self.prefix_spec(key@) == Err::<Seq<(usize, WordEntry)>, _>(e),
            },
    {
        let z = first_nul(key);
        let head = key.split_at(z).0;
        assert(head@ =~= key@.subrange(0, z as int));
        let hits = trie_prefixes(self.da.as_slice(), head);
        proof {
            lemma_hits_cut_at_nul(self.da@, key@, z as nat, z as nat);
            lemma_hits_cut_at_nul(self.da@, key@, z as nat, key@.len());
        }
        let mut out: Vec<(usize, WordEntry)> = Vec::new();
        let mut j: usize = 0;
        while j < hits.len()
            invariant
                j <= hits@.len(),
                hits@ == prefix_hits(self.da@, key@),
                hits_fit(self.vals_data@.len(), hits@.take(j as int)),
                out@ == expand_hits(self.vals_data@, hits@.take(j as int), self.is_system),
            decreases hits@.len() - j,
        {
            let (v, n) = hits[j];
            let count = packed_value_count(v) as u64;
            let offset = packed_value_offset(v) as u64;
            if (offset + count) * (SERIALIZED_LEN as u64) > self.vals_data.len() as u64 {
                assert(!hits_fit(self.vals_data@.len(), hits@)) by {
                    assert(hits@[j as int].0 == v);
                }
                return Err(DictionaryError::LookupBounds);
            }
            self.push_run(v, n, &mut out);
            assert(hits@.take(j + 1).drop_last() =~= hits@.take(j as int));
            j += 1;
            assert(hits_fit(self.vals_data@.len(), hits@.take(j as int))) by {
                assert forall|i: int| 0 <= i < j implies run_fits(
                    self.vals_data@.len(),
                    #[trigger] hits@.take(j as int)[i].0,
                ) by {
                    if i < j - 1 {
                        assert(hits@.take(j as int)[i] == hits@.take(j - 1)[i]);
                    }
                }
            }
        }
        assert(hits@.take(j as int) =~= hits@);
        Ok(out)
    }

    /// The records whose surface equals `surface` exactly.
    pub fn find_surface(&self, surface: &str) -> (r: Result<Vec<WordEntry>, DictionaryError>)
        requires
            self.wf(),
        ensures
            match r {
                Ok(v) => self.surface_spec(surface.spec_bytes()) == Ok::<_, DictionaryError>(v@),
                Err(e) => self.surface_spec(surface.spec_bytes()) == Err::<Seq<WordEntry>, _>(e),
            },
    {
        let key = surface.as_bytes();
        if key.len() == 0 || contains_nul(key) {
            return Ok(Vec::new());
        }
        match trie_exact(self.da.as_slice(), key) {
            None => Ok(Vec::new()),
            Some(v) => {
                let count = packed_value_count(v) as u64;
                let offset = packed_value_offset(v) as u64;
                if (offset + count) * (SERIALIZED_LEN as u64) > self.vals_data.len() as u64 {
                    return Err(DictionaryError::LookupBounds);
                }
                let mut tagged: Vec<(usize, WordEntry)> = Vec::new();
                self.push_run(v, 0, &mut tagged);
                let mut out: Vec<WordEntry> = Vec::new();
                let mut i: usize = 0;
                while i < tagged.len()
                    invariant
                        i <= tagged@.len(),
                        tagged@ == tagged_run(self.vals_data@, v, 0, self.is_system),
                        out@ == run_entries(self.vals_data@, v, self.is_system).take(i as int),
                    decreases tagged@.len() - i,
                {
                    out.push(tagged[i].1);
                    i += 1;
                    assert(out@ =~= run_entries(self.vals_data@, v, self.is_system).take(i as int));
                }
                assert(out@ =~= run_entries(self.vals_data@, v, self.is_system));
                Ok(out)
            }
        }
    }
}

} // verus!
