//! Properties that relate the lookups of a prefix dictionary.
use vstd::prelude::*;

use crate::prefix_dictionary::{
    expand_hits, hits_fit, packed_count, packed_offset, run_entries, tagged_run,
    PrefixDictionary,
};
use crate::tokenizer::Tokenizer;
use crate::trie::{has_nul, hits_upto, prefix_hits, trie_value};
use crate::viterbi::{is_partition, path_cost, Token};
use crate::word_entry::{WordEntry, SERIALIZED_LEN};

verus! {

/// The records of `ps` whose prefix length is `n`, in order.
pub open spec fn entries_of_len(ps: Seq<(usize, WordEntry)>, n: nat) -> Seq<WordEntry>
    decreases ps.len(),
{
    if ps.len() == 0 {
        seq![]
    } else {
        let rest = entries_of_len(ps.drop_last(), n);
        if ps.last().0 == n {
            rest.push(ps.last().1)
        } else {
            rest
        }
    }
}

proof fn lemma_entries_of_len_concat(a: Seq<(usize, WordEntry)>, b: Seq<(usize, WordEntry)>, n: nat)
    ensures
        entries_of_len(a + b, n) == entries_of_len(a, n) + entries_of_len(b, n),
    decreases b.len(),
{
    if b.len() == 0 {
        assert(a + b =~= a);
        assert(entries_of_len(b, n) =~= seq![]);
        assert(entries_of_len(a, n) + entries_of_len(b, n) =~= entries_of_len(a, n));
    } else {
        assert((a + b).drop_last() =~= a + b.drop_last());
        lemma_entries_of_len_concat(a, b.drop_last(), n);
        assert((a + b).last() == b.last());
        if b.last().0 == n {
            assert(entries_of_len(a, n) + entries_of_len(b.drop_last(), n).push(b.last().1)
                =~= (entries_of_len(a, n) + entries_of_len(b.drop_last(), n)).push(b.last().1));
        }
    }
}

proof fn lemma_entries_of_run(vals: Seq<u8>, v: u32, m: usize, is_system: bool, n: nat)
    ensures
        m == n ==> entries_of_len(tagged_run(vals, v, m, is_system), n) == run_entries(
            vals,
            v,
            is_system,
        ),
        m != n ==> entries_of_len(tagged_run(vals, v, m, is_system), n) == Seq::<WordEntry>::empty(),
{
    lemma_entries_of_tagged(run_entries(vals, v, is_system), m, n);
}

proof fn lemma_entries_of_tagged(r: Seq<WordEntry>, m: usize, n: nat)
    ensures
        m == n ==> entries_of_len(r.map_values(|e: WordEntry| (m, e)), n) == r,
        m != n ==> entries_of_len(r.map_values(|e: WordEntry| (m, e)), n) == Seq::<WordEntry>::empty(),
    decreases r.len(),
{
    let t = r.map_values(|e: WordEntry| (m, e));
    if r.len() == 0 {
        assert(t.len() == 0);
        assert(entries_of_len(t, n) =~= Seq::<WordEntry>::empty());
    } else {
        assert(t.drop_last() =~= r.drop_last().map_values(|e: WordEntry| (m, e)));
        lemma_entries_of_tagged(r.drop_last(), m, n);
        if m == n {
            assert(r.drop_last().push(r.last()) =~= r);
        }
    }
}

proof fn lemma_hits_short(t: Seq<u8>, k: Seq<u8>, n: nat)
    requires
        n <= usize::MAX,
    ensures
        forall|i: int| 0 <= i < hits_upto(t, k, n).len() ==> #[trigger] hits_upto(t, k, n)[i].1 <= n,
    decreases n,
{
    if n > 0 {
        let earlier = hits_upto(t, k, (n - 1) as nat);
        lemma_hits_short(t, k, (n - 1) as nat);
        let h = hits_upto(t, k, n);
        assert forall|i: int| 0 <= i < h.len() implies #[trigger] h[i].1 <= n by {
            if i < earlier.len() {
                assert(h[i] == earlier[i]);
            }
        }
    }
}

proof fn lemma_expand_short(vals: Seq<u8>, hits: Seq<(u32, usize)>, is_system: bool, n: nat)
    requires
        forall|i: int| 0 <= i < hits.len() ==> #[trigger] hits[i].1 < n,
    ensures
        entries_of_len(expand_hits(vals, hits, is_system), n) == Seq::<WordEntry>::empty(),
    decreases hits.len(),
{
    if hits.len() > 0 {
        let last = hits.last();
        assert(last == hits[hits.len() - 1]);
        lemma_expand_short(vals, hits.drop_last(), is_system, n);
        lemma_entries_of_len_concat(
            expand_hits(vals, hits.drop_last(), is_system),
            tagged_run(vals, last.0, last.1, is_system),
            n,
        );
        lemma_entries_of_run(vals, last.0, last.1, is_system, n);
        assert(Seq::<WordEntry>::empty() + Seq::<WordEntry>::empty() =~= Seq::<WordEntry>::empty());
    }
}

/// An exact search of a key finds exactly the records that a
/// common-prefix search of the same key pairs with the key's full length;
/// and where the exact search meets a record run outside the values buffer,
/// so does the prefix search.
pub proof fn lemma_exact_matches_full_prefix(d: PrefixDictionary, key: Seq<u8>)
    requires
        key.len() <= usize::MAX,
    ensures
        d.prefix_spec(key) matches Ok(ps) ==> d.surface_spec(key) == Ok::<_, crate::error::DictionaryError>(
            entries_of_len(ps, key.len()),
        ),
        d.surface_spec(key) is Err ==> d.prefix_spec(key) is Err,
{
    if key.len() == 0 {
        assert(prefix_hits(d.da@, key) =~= Seq::<(u32, usize)>::empty());
        assert(entries_of_len(expand_hits(d.vals_data@, Seq::<(u32, usize)>::empty(), d.is_system), 0)
            =~= Seq::<WordEntry>::empty());
        return;
    }
    let n = key.len();
    let t = d.da@;
    let vals = d.vals_data@;
    let sys = d.is_system;
    let hits = prefix_hits(t, key);
    let earlier = hits_upto(t, key, (n - 1) as nat);
    assert(key.subrange(0, n as int) =~= key);
    lemma_hits_short(t, key, (n - 1) as nat);
    lemma_expand_short(vals, earlier, sys, n);
    if !has_nul(key) && trie_value(t, key) is Some {
        let v = trie_value(t, key)->0;
        assert(hits == earlier.push((v, n as usize)));
        assert(hits.drop_last() =~= earlier);
        lemma_entries_of_len_concat(
            expand_hits(vals, earlier, sys),
            tagged_run(vals, v, n as usize, sys),
            n,
        );
        lemma_entries_of_run(vals, v, n as usize, sys, n);
        assert(Seq::<WordEntry>::empty() + run_entries(vals, v, sys) =~= run_entries(vals, v, sys));
        if hits_fit(vals.len(), hits) {
            assert(hits[hits.len() - 1].0 == v);
        }
    } else {
        assert(hits == earlier);
    }
}

/// Every value a successful common-prefix search decoded addresses at most
/// 31 records, lying wholly inside the values buffer.
pub proof fn lemma_packed_values_in_range(d: PrefixDictionary, key: Seq<u8>)
    requires
        d.prefix_spec(key) is Ok,
    ensures
        forall|i: int|
            0 <= i < prefix_hits(d.da@, key).len() ==> {
                let v = #[trigger] prefix_hits(d.da@, key)[i].0;
                &&& packed_count(v) <= 31
                &&& packed_offset(v) * SERIALIZED_LEN + packed_count(v) * SERIALIZED_LEN
                    <= d.vals_data@.len()
            },
{
    assert forall|i: int| 0 <= i < prefix_hits(d.da@, key).len() implies {
        let v = #[trigger] prefix_hits(d.da@, key)[i].0;
        &&& packed_count(v) <= 31
        &&& packed_offset(v) * SERIALIZED_LEN + packed_count(v) * SERIALIZED_LEN
            <= d.vals_data@.len()
    } by {
        let v = prefix_hits(d.da@, key)[i].0;
        assert(crate::prefix_dictionary::run_fits(d.vals_data@.len(), v));
        assert((packed_offset(v) + packed_count(v)) * SERIALIZED_LEN == packed_offset(v)
            * SERIALIZED_LEN + packed_count(v) * SERIALIZED_LEN) by (nonlinear_arith);
    }
}

proof fn lemma_partition_ends(ts: Seq<Token>, n: nat, i: int)
    requires
        is_partition(ts, n),
        0 <= i < ts.len(),
    ensures
        ts[i].end >= i + 1,
    decreases i,
{
    if i > 0 {
        lemma_partition_ends(ts, n, i - 1);
        assert(ts[i - 1].end == ts[i].start);
    }
    assert(ts[i].start < ts[i].end);
}

/// Empty input: every lookup a tokenizer makes on it succeeds (there is
/// none), so tokenizing succeeds, and the only partition of an empty text
/// is the empty token sequence.
pub proof fn lemma_empty_text_no_tokens(t: Tokenizer, ts: Seq<Token>)
    ensures
        t.sound_on(Seq::<u8>::empty()),
        is_partition(ts, 0) ==> ts.len() == 0,
{
    if is_partition(ts, 0) && ts.len() > 0 {
        lemma_partition_ends(ts, 0, ts.len() - 1);
    }
}

/// Two segmentations that each meet what `Tokenizer::tokenize` promises for
/// the same text (a lattice path that no lattice path undercuts) cost the
/// same: repeated tokenization may differ only between equal-cost paths.
pub proof fn lemma_repeat_same_cost(t: Tokenizer, b: Seq<u8>, first: Seq<Token>, second: Seq<Token>)
    requires
        t.lattice_path(b, first),
        t.lattice_path(b, second),
        forall|o: Seq<Token>|
            t.lattice_path(b, o) ==> path_cost(t.dictionary.connection_cost_matrix, first) <= path_cost(
                t.dictionary.connection_cost_matrix,
                o,
            ),
        forall|o: Seq<Token>|
            t.lattice_path(b, o) ==> path_cost(t.dictionary.connection_cost_matrix, second) <= path_cost(
                t.dictionary.connection_cost_matrix,
                o,
            ),
    ensures
        path_cost(t.dictionary.connection_cost_matrix, first) == path_cost(
            t.dictionary.connection_cost_matrix,
            second,
        ),
{
}

} // verus!
