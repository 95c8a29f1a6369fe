//! Builds the lattice of a text from the dictionaries and segments the text.
use vstd::prelude::*;
use vstd::string::StringSliceAdditionalSpecFns;
use vstd::utf8::{
    decode_first_codepoint, encode_utf8_valid_utf8, is_char_boundary,
    is_char_boundary_start_end_of_seq, valid_leading_and_continuation_bytes_first_codepoint,
};

use crate::character::{CharacterDefinition, UnknownDictionary};
use crate::connection::{matrix_len, ConnectionCostMatrix};
use crate::error::DictionaryError;
use crate::prefix_dictionary::PrefixDictionary;
use crate::viterbi::{
    best_path, edge_ok, is_lattice_path, is_partition, lattice_ok, path_cost, steps_through, token_in, Edge, Token,
};
use crate::trie::trie_wf;
use crate::word_entry::{le_u16, WordEntry};

verus! {

/// The bytes of `b` from offset `p` on.
pub open spec fn suffix(b: Seq<u8>, p: int) -> Seq<u8> {
    b.subrange(p, b.len() as int)
}

/// The code point whose encoding starts at offset `p` of `b`; a byte that
/// starts no well-formed encoding stands for itself.
pub open spec fn code_point(b: Seq<u8>, p: int) -> u32 {
    if valid_leading_and_continuation_bytes_first_codepoint(suffix(b, p)) {
        decode_first_codepoint(suffix(b, p))
    } else {
        b[p] as u32
    }
}

/// Whether both context ids of `e` index the matrix.
pub open spec fn ids_in(m: ConnectionCostMatrix, e: WordEntry) -> bool {
    e.left_id < m.backward_size && e.right_id < m.forward_size
}

/// Whether a common-prefix search of `key` succeeds with usable records only.
pub open spec fn lookup_sound(d: PrefixDictionary, m: ConnectionCostMatrix, key: Seq<u8>) -> bool {
    d.prefix_spec(key) matches Ok(ps) && forall|i: int| 0 <= i < ps.len() ==> ids_in(m, #[trigger] ps[i].1)
}

/// Whether `(len, e)` is among the records a common-prefix search of `key` finds.
pub open spec fn from_dictionary(d: PrefixDictionary, key: Seq<u8>, len: usize, e: WordEntry) -> bool {
    d.prefix_spec(key) matches Ok(ps) && exists|i: int| 0 <= i < ps.len() && #[trigger] ps[i] == (len, e)
}

/// All that a tokenizer works with: the system dictionary, the transition
/// costs, the character categories and their fallback records.
#[derive(Clone, Debug)]
pub struct Dictionary {
    pub prefix_dictionary: PrefixDictionary,
    pub connection_cost_matrix: ConnectionCostMatrix,
    pub character_definition: CharacterDefinition,
    pub unknown_dictionary: UnknownDictionary,
}

impl Dictionary {
    /// The trie is well formed and the parts fit together (see `parts_fit`).
    pub open spec fn wf(&self) -> bool {
        &&& self.prefix_dictionary.wf()
        &&& parts_fit(self.connection_cost_matrix, self.character_definition, self.unknown_dictionary)
    }
}

/// The start and end context indexes the matrix, each category has fallback
/// records, and those records index the matrix.
pub open spec fn parts_fit(m: ConnectionCostMatrix, cd: CharacterDefinition, ud: UnknownDictionary) -> bool {
    let u = ud.entries@;
    &&& m.wf()
    &&& m.forward_size > 0
    &&& m.backward_size > 0
    &&& cd.wf()
    &&& u.len() == cd.categories@.len()
    &&& forall|c: int| 0 <= c < u.len() ==> (#[trigger] u[c])@.len() > 0
    &&& forall|c: int, j: int| 0 <= c < u.len() && 0 <= j < u[c]@.len() ==> ids_in(m, #[trigger] u[c]@[j])
}

/// Assembles a dictionary from its loaded parts; fails when they do not fit together.
pub fn load(
    prefix_dictionary: PrefixDictionary,
    connection_cost_matrix: ConnectionCostMatrix,
    character_definition: CharacterDefinition,
    unknown_dictionary: UnknownDictionary,
) -> (r: Result<Dictionary, DictionaryError>)
    requires
        prefix_dictionary.wf(),
        connection_cost_matrix.wf(),
        character_definition.wf(),
    ensures
        match r {
            Ok(d) => d.wf() && d.prefix_dictionary == prefix_dictionary && d.connection_cost_matrix
                == connection_cost_matrix && d.character_definition == character_definition
                && d.unknown_dictionary == unknown_dictionary,
            Err(e) => e == DictionaryError::Format && !parts_fit(
                connection_cost_matrix,
                character_definition,
                unknown_dictionary,
            ),
        },
{
    let d = Dictionary { prefix_dictionary, connection_cost_matrix, character_definition, unknown_dictionary };
    let m = &d.connection_cost_matrix;
    if m.forward_size == 0 || m.backward_size == 0 {
        return Err(DictionaryError::Format);
    }
    let u = &d.unknown_dictionary.entries;
    if u.len() != d.character_definition.categories.len() {
        return Err(DictionaryError::Format);
    }
    let mut c: usize = 0;
    while c < u.len()
        invariant
            c <= u@.len(),
            u == d.unknown_dictionary.entries,
            m == d.connection_cost_matrix,
            d.connection_cost_matrix == connection_cost_matrix,
            d.character_definition == character_definition,
            d.unknown_dictionary == unknown_dictionary,
            d.prefix_dictionary == prefix_dictionary,
            m.wf(),
            d.character_definition.wf(),
            u@.len() == d.character_definition.categories@.len(),
            m.forward_size > 0,
            m.backward_size > 0,
            forall|x: int| 0 <= x < c ==> (#[trigger] u@[x])@.len() > 0,
            forall|x: int, j: int| 0 <= x < c && 0 <= j < u@[x]@.len() ==> ids_in(*m, #[trigger] u@[x]@[j]),
        decreases u@.len() - c,
    {
        if u[c].len() == 0 {
            assert(u@[c as int]@.len() == 0);
            assert(!d.wf());
            return Err(DictionaryError::Format);
        }
        let mut j: usize = 0;
        while j < u[c].len()
            invariant
                c < u@.len(),
                u == d.unknown_dictionary.entries,
                m == d.connection_cost_matrix,
                d.connection_cost_matrix == connection_cost_matrix,
                d.character_definition == character_definition,
                d.unknown_dictionary == unknown_dictionary,
                j <= u@[c as int]@.len(),
                forall|x: int| 0 <= x < j ==> ids_in(*m, #[trigger] u@[c as int]@[x]),
            decreases u@[c as int]@.len() - j,
        {
            let e = u[c][j];
            if e.left_id >= m.backward_size || e.right_id >= m.forward_size {
                assert(!ids_in(*m, u@[c as int]@[j as int]));
                assert(!d.wf());
                return Err(DictionaryError::Format);
            }
            j += 1;
        }
        c += 1;
    }
    Ok(d)
}


/// Assembles a dictionary from the loaded buffers of the trie, the records,
/// the word details and the cost matrix, and from the character categories
/// and their fallback records; fails with `Format` where any part is
/// malformed or the parts do not fit together.
pub fn assemble(
    da_data: Vec<u8>,
    vals_data: Vec<u8>,
    words_idx_data: Vec<u8>,
    words_data: Vec<u8>,
    connection_data: Vec<u8>,
    character_definition: CharacterDefinition,
    unknown_dictionary: UnknownDictionary,
) -> (r: Result<Dictionary, DictionaryError>)
    ensures
        r is Ok <==> {
            &&& trie_wf(da_data@)
            &&& connection_data@.len() >= 4
            &&& connection_data@.len() >= matrix_len(
                le_u16(connection_data@[0], connection_data@[1]),
                le_u16(connection_data@[2], connection_data@[3]),
            )
            &&& character_definition.wf()
            &&& parts_fit_loaded(connection_data@, character_definition, unknown_dictionary)
        },
        r matches Err(e) ==> e == DictionaryError::Format,
        r matches Ok(d) ==> {
            &&& d.wf()
            &&& d.prefix_dictionary.da@ == da_data@
            &&& d.prefix_dictionary.vals_data@ == vals_data@
            &&& d.prefix_dictionary.words_idx_data@ == words_idx_data@
            &&& d.prefix_dictionary.words_data@ == words_data@
            &&& d.prefix_dictionary.is_system
            &&& d.connection_cost_matrix.costs_data@ == connection_data@
            &&& d.character_definition.categories@ == character_definition.categories@
            &&& d.character_definition.ranges@ == character_definition.ranges@
            &&& d.character_definition.default_categories@ == character_definition.default_categories@
            &&& d.unknown_dictionary == unknown_dictionary
        },
{
    let ghost cdata = connection_data@;
    let ghost cd0 = character_definition;
    let prefix = match PrefixDictionary::load(da_data, vals_data, words_idx_data, words_data) {
        Ok(p) => p,
        Err(e) => {
            return Err(e);
        },
    };
    let matrix = match ConnectionCostMatrix::load(connection_data) {
        Ok(m) => m,
        Err(e) => {
            return Err(e);
        },
    };
    let cd = match CharacterDefinition::new(
        character_definition.categories,
        character_definition.ranges,
        character_definition.default_categories,
    ) {
        Ok(cd) => cd,
        Err(e) => {
            assert(!cd0.wf());
            return Err(e);
        },
    };
    assert(cd.categories@ == cd0.categories@ && cd.ranges@ == cd0.ranges@
        && cd.default_categories@ == cd0.default_categories@);
    proof {
        assert(matrix.forward_size as int == le_u16(cdata[0], cdata[1]));
    }
    load(prefix, matrix, cd, unknown_dictionary)
}

/// `parts_fit` for the matrix that `connection` holds.
pub open spec fn parts_fit_loaded(connection: Seq<u8>, cd: CharacterDefinition, ud: UnknownDictionary) -> bool {
    let rows = le_u16(connection[0], connection[1]);
    let cols = le_u16(connection[2], connection[3]);
    let u = ud.entries@;
    &&& rows > 0
    &&& cols > 0
    &&& u.len() == cd.categories@.len()
    &&& forall|c: int| 0 <= c < u.len() ==> (#[trigger] u[c])@.len() > 0
    &&& forall|c: int, j: int|
        0 <= c < u.len() && 0 <= j < u[c]@.len() ==> (#[trigger] u[c]@[j]).left_id < cols && u[c]@[j].right_id
            < rows
}

/// Whether two candidates are interchangeable in the search: the same span,
/// contexts and cost.
pub open spec fn twins(a: Edge, b: Edge) -> bool {
    &&& a.len == b.len
    &&& a.entry.left_id == b.entry.left_id
    &&& a.entry.right_id == b.entry.right_id
    &&& a.entry.word_cost == b.entry.word_cost
}

/// Whether one of the first `nu` candidates of `es` is a twin of `e`.
fn has_twin_before(es: &Vec<Edge>, nu: usize, e: Edge) -> (r: bool)
    requires
        nu <= es@.len(),
    ensures
        r == exists|k: int| 0 <= k < nu && twins(#[trigger] es@[k], e),
{
    let mut k: usize = 0;
    while k < nu
        invariant
            nu <= es@.len(),
            k <= nu,
            forall|x: int| 0 <= x < k ==> !twins(#[trigger] es@[x], e),
        decreases nu - k,
    {
        let c = es[k];
        if c.len == e.len && c.entry.left_id == e.entry.left_id && c.entry.right_id == e.entry.right_id
            && c.entry.word_cost == e.entry.word_cost {
            assert(twins(es@[k as int], e));
            return true;
        }
        k += 1;
    }
    false
}

/// How a tokenizer segments a text.
#[derive(Clone, Copy, Debug, PartialEq, Eq, Structural)]
pub enum Mode {
    /// Emits the words of the minimum-cost path as they are.
    Normal,
}

/// Segments texts with a dictionary and an optional user dictionary. Where a
/// user word has a twin (same span, contexts and cost) among the other
/// candidates at a position, only the user word enters the lattice.
#[derive(Clone, Debug)]
pub struct Tokenizer {
    pub mode: Mode,
    pub dictionary: Dictionary,
    pub user_dictionary: Option<PrefixDictionary>,
}

/// Whether byte `c` continues a UTF-8 encoding.
fn is_continuation(c: u8) -> (r: bool)
    ensures
        r == vstd::utf8::is_continuation_byte(c),
{
    0x80 <= c && c <= 0xbf
}

/// The code point whose encoding starts at offset `p` of `b`.
pub fn code_point_at(b: &[u8], p: usize) -> (r: u32)
    requires
        p < b@.len(),
    ensures
        r == code_point(b@, p as int),
{
    let n = b.len();
    let b0 = b[p];
    let ghost s = suffix(b@, p as int);
    assert(s[0] == b0);
    if b0 <= 0x7f {
        (b0 & 0x7F) as u32
    } else if 0xc0 <= b0 && b0 <= 0xdf && n - p >= 2 && is_continuation(b[p + 1]) {
        assert(s[1] == b@[p + 1]);
        (((b0 & 0x1F) as u32) << 6) | ((b[p + 1] & 0x3f) as u32)
    } else if 0xe0 <= b0 && b0 <= 0xef && n - p >= 3 && is_continuation(b[p + 1]) && is_continuation(
        b[p + 2],
    ) {
        assert(s[1] == b@[p + 1] && s[2] == b@[p + 2]);
        (((b0 & 0x0F) as u32) << 12) | (((b[p + 1] & 0x3f) as u32) << 6) | ((b[p + 2] & 0x3f) as u32)
    } else if 0xf0 <= b0 && b0 <= 0xf7 && n - p >= 4 && is_continuation(b[p + 1]) && is_continuation(
        b[p + 2],
    ) && is_continuation(b[p + 3]) {
        assert(s[1] == b@[p + 1] && s[2] == b@[p + 2] && s[3] == b@[p + 3]);
        (((b0 & 0x07) as u32) << 18) | (((b[p + 1] & 0x3f) as u32) << 12) | (((b[p + 2] & 0x3f) as u32) << 6)
            | ((b[p + 3] & 0x3f) as u32)
    } else {
        proof {
            if s.len() >= 2 {
                assert(s[1] == b@[p + 1]);
            }
            if s.len() >= 3 {
                assert(s[2] == b@[p + 2]);
            }
            if s.len() >= 4 {
                assert(s[3] == b@[p + 3]);
            }
        }
        b0 as u32
    }
}

/// The first character start of `b` at or after `q`, or the end of `b`.
pub open spec fn boundary_from(b: Seq<u8>, q: int) -> int
    decreases b.len() - q,
{
    if q >= b.len() || is_char_boundary(b, q) {
        q
    } else {
        boundary_from(b, q + 1)
    }
}

proof fn lemma_boundary_from(b: Seq<u8>, x: int, q: int)
    requires
        0 <= x <= q <= b.len(),
        q == b.len() || is_char_boundary(b, q),
        forall|y: int| x <= y < q ==> !is_char_boundary(b, y),
    ensures
        boundary_from(b, x) == q,
    decreases q - x,
{
    if x < q {
        lemma_boundary_from(b, x + 1, q);
    }
}

/// The first character start after `p`.
fn next_start(is_start: &Vec<bool>, p: usize, n: usize) -> (q: usize)
    requires
        is_start@.len() == n + 1,
        is_start@[n as int],
        p < n,
    ensures
        p < q <= n,
        is_start@[q as int],
        forall|x: int| p < x < q ==> !is_start@[x],
{
    let mut q = p + 1;
    while !is_start[q]
        invariant
            is_start@.len() == n + 1,
            is_start@[n as int],
            p < q <= n,
            forall|x: int| p < x < q ==> !is_start@[x],
        decreases n - q,
    {
        q += 1;
    }
    q
}

/// Whether `v` holds `c`.
fn contains_id(v: &Vec<usize>, c: usize) -> (r: bool)
    ensures
        r == v@.contains(c),
{
    let mut i: usize = 0;
    while i < v.len()
        invariant
            i <= v@.len(),
            forall|j: int| 0 <= j < i ==> v@[j] != c,
        decreases v@.len() - i,
    {
        if v[i] == c {
            return true;
        }
        i += 1;
    }
    false
}

impl Tokenizer {
    /// The dictionary and the user dictionary are well formed.
    pub open spec fn wf(&self) -> bool {
        &&& self.dictionary.wf()
        &&& self.user_dictionary matches Some(u) ==> u.wf()
    }

    /// The lookups at offset `p` of `b` succeed with usable records.
    pub open spec fn sound_at(&self, b: Seq<u8>, p: int) -> bool {
        let m = self.dictionary.connection_cost_matrix;
        &&& lookup_sound(self.dictionary.prefix_dictionary, m, suffix(b, p))
        &&& (self.user_dictionary matches Some(u) ==> lookup_sound(u, m, suffix(b, p)))
    }

    /// The lookups at every character start of `b` succeed with usable records.
    pub open spec fn sound_on(&self, b: Seq<u8>) -> bool {
        forall|p: int| 0 <= p < b.len() && is_char_boundary(b, p) ==> #[trigger] self.sound_at(b, p)
    }

    /// Whether `len` bytes from `p` on are a word of either dictionary with record `e`.
    pub open spec fn dictionary_word(&self, b: Seq<u8>, p: int, len: usize, e: WordEntry) -> bool {
        ||| from_dictionary(self.dictionary.prefix_dictionary, suffix(b, p), len, e)
        ||| (self.user_dictionary matches Some(u) && from_dictionary(u, suffix(b, p), len, e))
    }

    /// What looking up the details of `token` gives: from the system
    /// dictionary for a system word, else from the user dictionary.
    pub open spec fn token_details_spec(&self, token: Token) -> Result<Seq<Seq<char>>, DictionaryError> {
        if token.entry.word_id.is_system {
            self.dictionary.prefix_dictionary.details_spec(token.entry.word_id.id)
        } else {
            match self.user_dictionary {
                Some(u) => u.details_spec(token.entry.word_id.id),
                None => Err(DictionaryError::LookupBounds),
            }
        }
    }

    /// The detail fields of the word of `token`, decoded on demand.
    pub fn word_details(&self, token: &Token) -> (r: Result<Vec<String>, DictionaryError>)
        ensures
            r matches Ok(v) ==> self.token_details_spec(*token) == Ok::<_, DictionaryError>(v.deep_view()),
            r matches Err(e) ==> self.token_details_spec(*token) == Err::<Seq<Seq<char>>, _>(e),
    {
        if token.entry.word_id.is_system {
            self.dictionary.prefix_dictionary.word_details(token.entry.word_id.id)
        } else {
            match &self.user_dictionary {
                Some(u) => u.word_details(token.entry.word_id.id),
                None => Err(DictionaryError::LookupBounds),
            }
        }
    }

    /// A tokenizer over `dictionary` and, if given, a user dictionary.
    pub fn new(mode: Mode, dictionary: Dictionary, user_dictionary: Option<PrefixDictionary>) -> (r: Tokenizer)
        ensures
            r.mode == mode,
            r.dictionary == dictionary,
            r.user_dictionary == user_dictionary,
    {
        Tokenizer { mode, dictionary, user_dictionary }
    }

    /// Appends the records of `d` whose surface starts at `p` and ends at a
    /// character start.
    fn push_dictionary_candidates(
        &self,
        d: &PrefixDictionary,
        b: &[u8],
        is_start: &Vec<bool>,
        p: usize,
        out: &mut Vec<Edge>,
    ) -> (r: Result<(), DictionaryError>)
        requires
            self.wf(),
            d.wf(),
            p < b@.len(),
            is_start@.len() == b@.len() + 1,
        ensures
            r is Ok <==> lookup_sound(*d, self.dictionary.connection_cost_matrix, suffix(b@, p as int)),
            final(out)@.len() >= old(out)@.len(),
            forall|j: int| 0 <= j < old(out)@.len() ==> #[trigger] final(out)@[j] == old(out)@[j],
            forall|j: int|
                old(out)@.len() <= j < final(out)@.len() ==> {
                    let e = #[trigger] final(out)@[j];
                    &&& edge_ok(p as int, e, b@.len(), self.dictionary.connection_cost_matrix)
                    &&& is_start@[p + e.len]
                    &&& from_dictionary(*d, suffix(b@, p as int), e.len, e.entry)
                },
            r is Ok ==> forall|len: usize, e: WordEntry|
                from_dictionary(*d, suffix(b@, p as int), len, e) && len >= 1 && p + len <= b@.len()
                    && is_start@[p + len] ==> exists|j: int|
                    old(out)@.len() <= j < final(out)@.len() && #[trigger] final(out)@[j] == (Edge { len, entry: e }),
    {
        let m = &self.dictionary.connection_cost_matrix;
        let n = b.len();
        let key = b.split_at(p).1;
        assert(key@ =~= suffix(b@, p as int));
        let ps = match d.prefix_bytes(key) {
            Err(e) => {
                return Err(e);
            },
            Ok(ps) => ps,
        };
        let ghost start = out@;
        let mut i: usize = 0;
        while i < ps.len()
            invariant
                d.prefix_spec(suffix(b@, p as int)) == Ok::<_, DictionaryError>(ps@),
                start == old(out)@,
                *m == self.dictionary.connection_cost_matrix,
                n == b@.len(),
                p < n,
                is_start@.len() == n + 1,
                i <= ps@.len(),
                forall|x: int| 0 <= x < i ==> ids_in(*m, #[trigger] ps@[x].1),
                out@.len() >= start.len(),
                forall|j: int| 0 <= j < start.len() ==> #[trigger] out@[j] == start[j],
                forall|j: int|
                    start.len() <= j < out@.len() ==> {
                        let e = #[trigger] out@[j];
                        &&& edge_ok(p as int, e, n as nat, *m)
                        &&& is_start@[p + e.len]
                        &&& from_dictionary(*d, suffix(b@, p as int), e.len, e.entry)
                    },
                forall|x: int|
                    0 <= x < i && (#[trigger] ps@[x]).0 >= 1 && p + ps@[x].0 <= n && is_start@[p + ps@[x].0]
                        ==> exists|j: int| start.len() <= j < out@.len() && out@[j] == (Edge { len: ps@[x].0, entry: ps@[x].1 }),
            decreases ps@.len() - i,
        {
            let (len, entry) = ps[i];
            if entry.left_id >= m.backward_size || entry.right_id >= m.forward_size {
                assert(ps@[i as int].1 == entry);
                assert(!ids_in(*m, ps@[i as int].1));
                let ghost key_spec = suffix(b@, p as int);
                assert(d.prefix_spec(key_spec) is Ok);
                assert(d.prefix_spec(key_spec)->Ok_0 == ps@);
                assert(!lookup_sound(*d, *m, key_spec));
                return Err(DictionaryError::LookupBounds);
            }
            let ghost before_any = out@;
            if len >= 1 && len <= n - p && is_start[p + len] {
                let ghost before = out@;
                out.push(Edge { len, entry });
                assert(out@[before.len() as int] == (Edge { len, entry }));
                assert(ps@[i as int] == (len, entry));
                assert forall|j: int| start.len() <= j < out@.len() implies {
                    let e = #[trigger] out@[j];
                    &&& edge_ok(p as int, e, n as nat, *m)
                    &&& is_start@[p + e.len]
                    &&& from_dictionary(*d, suffix(b@, p as int), e.len, e.entry)
                } by {
                    if j < before.len() {
                        assert(out@[j] == before[j]);
                    } else {
                        let ghost key_spec = suffix(b@, p as int);
                        assert(out@[j] == Edge { len, entry });
                        assert(d.prefix_spec(key_spec) is Ok);
                        assert(d.prefix_spec(key_spec)->Ok_0 == ps@);
                        assert(ps@[i as int] == (len, entry));
                        assert(from_dictionary(*d, key_spec, len, entry));
                    }
                }
            }
            assert forall|x: int|
                0 <= x < i + 1 && (#[trigger] ps@[x]).0 >= 1 && p + ps@[x].0 <= n && is_start@[p + ps@[x].0]
                    implies exists|j: int| start.len() <= j < out@.len() && out@[j] == (Edge { len: ps@[x].0, entry: ps@[x].1 }) by {
                if x < i {
                    let j = choose|j: int| start.len() <= j < before_any.len() && before_any[j] == (Edge { len: ps@[x].0, entry: ps@[x].1 });
                    assert(out@[j] == before_any[j]);
                } else {
                    assert(ps@[x] == (len, entry));
                    assert(out@[before_any.len() as int] == (Edge { len, entry }));
                }
            }
            i += 1;
        }
        assert forall|len: usize, e: WordEntry|
            from_dictionary(*d, suffix(b@, p as int), len, e) && len >= 1 && p + len <= b@.len()
                && is_start@[p + len] implies exists|j: int|
                old(out)@.len() <= j < out@.len() && #[trigger] out@[j] == (Edge { len, entry: e }) by {
            let key_spec = suffix(b@, p as int);
            assert(d.prefix_spec(key_spec)->Ok_0 == ps@);
            let x = choose|x: int| 0 <= x < ps@.len() && #[trigger] ps@[x] == (len, e);
            assert(ps@[x].0 == len);
            let j = choose|j: int| start.len() <= j < out@.len() && out@[j] == (Edge { len: ps@[x].0, entry: ps@[x].1 });
            assert(out@[j] == (Edge { len, entry: e }));
        }
        Ok(())
    }

    /// The first character start at or after `q` whose character is not of
    /// category `c`, or the end of `b`.
    pub open spec fn run_end(&self, b: Seq<u8>, q: int, c: usize) -> int
        decreases b.len() - q,
    {
        if q >= b.len() {
            b.len() as int
        } else if q >= 0 && is_char_boundary(b, q) && !self.dictionary.character_definition.categories_of(
            code_point(b, q),
        ).contains(c) {
            q
        } else {
            self.run_end(b, q + 1, c)
        }
    }

    /// The length of the fallback candidates of category `c` at `p`: the run
    /// of the category where it groups, else the one character.
    pub open spec fn unknown_len(&self, b: Seq<u8>, p: int, c: usize) -> int {
        if self.dictionary.character_definition.categories@[c as int].group {
            self.run_end(b, boundary_from(b, p + 1), c) - p
        } else {
            boundary_from(b, p + 1) - p
        }
    }

    proof fn lemma_run_end_boundary(&self, b: Seq<u8>, q: int, c: usize)
        requires
            0 <= q <= b.len(),
            is_char_boundary(b, b.len() as int),
        ensures
            q <= self.run_end(b, q, c) <= b.len(),
            is_char_boundary(b, self.run_end(b, q, c)),
        decreases b.len() - q,
    {
        if q < b.len() {
            self.lemma_run_end_boundary(b, q + 1, c);
        }
    }

    proof fn lemma_boundary_from_bounds(b: Seq<u8>, q: int)
        requires
            0 <= q <= b.len(),
            is_char_boundary(b, b.len() as int),
        ensures
            q <= boundary_from(b, q) <= b.len(),
            is_char_boundary(b, boundary_from(b, q)),
        decreases b.len() - q,
    {
        if q < b.len() {
            Self::lemma_boundary_from_bounds(b, q + 1);
        }
    }

    /// A fallback candidate at a character start ends at a later character
    /// start, at the end of `b` at the latest.
    proof fn lemma_unknown_end(&self, b: Seq<u8>, p: int, i: int)
        requires
            self.wf(),
            0 <= p < b.len(),
            is_char_boundary(b, b.len() as int),
            0 <= i < self.dictionary.character_definition.categories_of(code_point(b, p)).len(),
        ensures
            ({
                let c = self.dictionary.character_definition.categories_of(code_point(b, p))[i];
                &&& 1 <= self.unknown_len(b, p, c)
                &&& p + self.unknown_len(b, p, c) <= b.len()
                &&& is_char_boundary(b, p + self.unknown_len(b, p, c))
            }),
    {
        let c = self.dictionary.character_definition.categories_of(code_point(b, p))[i];
        Self::lemma_boundary_from_bounds(b, p + 1);
        self.lemma_run_end_boundary(b, boundary_from(b, p + 1), c);
    }

    proof fn lemma_run_end_skip(&self, b: Seq<u8>, x: int, q: int, c: usize)
        requires
            0 <= x <= q <= b.len(),
            forall|y: int| x <= y < q ==> !is_char_boundary(b, y) || self.dictionary.character_definition.categories_of(
                code_point(b, y),
            ).contains(c),
        ensures
            self.run_end(b, x, c) == self.run_end(b, q, c),
        decreases q - x,
    {
        if x < q {
            self.lemma_run_end_skip(b, x + 1, q, c);
        }
    }

    /// The end of the run of characters from `p` on that belong to category `c`:
    /// the first later character start whose character does not, or the end.
    fn group_end(&self, b: &[u8], is_start: &Vec<bool>, p: usize, c: usize) -> (q: usize)
        requires
            self.wf(),
            p < b@.len(),
            is_start@.len() == b@.len() + 1,
            is_start@[b@.len() as int],
            forall|x: int| 0 <= x <= b@.len() ==> #[trigger] is_start@[x] == is_char_boundary(b@, x),
        ensures
            p < q <= b@.len(),
            is_start@[q as int],
            forall|x: int|
                p < x < q && #[trigger] is_start@[x] ==> self.dictionary.character_definition.categories_of(
                    code_point(b@, x),
                ).contains(c),
            q < b@.len() ==> !self.dictionary.character_definition.categories_of(code_point(b@, q as int)).contains(c),
            q == self.run_end(b@, boundary_from(b@, p + 1), c),
    {
        let n = b.len();
        let mut q = next_start(is_start, p, n);
        let ghost q0 = q;
        proof {
            assert forall|y: int| p + 1 <= y < q implies !is_char_boundary(b@, y) by {
                assert(!is_start@[y]);
            }
            lemma_boundary_from(b@, p + 1, q as int);
        }
        let mut done = false;
        while q < n && !done
            invariant
                self.wf(),
                forall|x: int| 0 <= x <= n ==> #[trigger] is_start@[x] == is_char_boundary(b@, x),
                q0 == boundary_from(b@, p + 1),
                self.run_end(b@, q as int, c) == self.run_end(b@, q0 as int, c),
                done ==> self.run_end(b@, q as int, c) == q,
                n == b@.len(),
                is_start@.len() == n + 1,
                is_start@[n as int],
                p < q <= n,
                is_start@[q as int],
                forall|x: int|
                    p < x < q && #[trigger] is_start@[x] ==> self.dictionary.character_definition.categories_of(
                        code_point(b@, x),
                    ).contains(c),
                done ==> q < n && !self.dictionary.character_definition.categories_of(code_point(b@, q as int)).contains(c),
            decreases n - q + (if done { 0int } else { 1int }),
        {
            let cats = self.dictionary.character_definition.lookup_categories(code_point_at(b, q));
            if contains_id(cats, c) {
                let q1 = next_start(is_start, q, n);
                proof {
                    assert(is_start@[q as int]);
                    assert forall|y: int| q <= y < q1 implies !is_char_boundary(b@, y)
                        || self.dictionary.character_definition.categories_of(code_point(b@, y)).contains(c) by {
                        if y > q {
                            assert(!is_start@[y]);
                        }
                    }
                    self.lemma_run_end_skip(b@, q as int, q1 as int, c);
                }
                q = q1;
            } else {
                done = true;
            }
        }
        q
    }

    /// Whether the `k`-th fallback record of the `i`-th category of the
    /// character at `p` is due: where the category invokes, or where no
    /// dictionary word starts there (`found` false).
    pub open spec fn unknown_due(&self, b: Seq<u8>, p: int, found: bool, i: int, k: int) -> bool {
        let cd = self.dictionary.character_definition;
        let cats = cd.categories_of(code_point(b, p));
        &&& 0 <= i < cats.len()
        &&& (!found || cd.categories@[cats[i] as int].invoke)
        &&& 0 <= k < self.dictionary.unknown_dictionary.entries@[cats[i] as int]@.len()
    }

    /// The candidate of the `k`-th fallback record of the `i`-th category of
    /// the character at `p`.
    pub open spec fn unknown_candidate(&self, b: Seq<u8>, p: int, i: int, k: int) -> Edge {
        let cats = self.dictionary.character_definition.categories_of(code_point(b, p));
        Edge {
            len: self.unknown_len(b, p, cats[i]) as usize,
            entry: self.dictionary.unknown_dictionary.entries@[cats[i] as int]@[k],
        }
    }

    /// Whether `e` is a due fallback candidate at `p`.
    pub open spec fn unknown_edge(&self, b: Seq<u8>, p: int, found: bool, e: Edge) -> bool {
        exists|i: int, k: int| self.unknown_due(b, p, found, i, k) && #[trigger] self.unknown_candidate(b, p, i, k) == e
    }

    /// Appends the due fallback candidates at `p`, category by category in
    /// the order of the character's categories, record by record.
    fn push_unknown_candidates(&self, b: &[u8], is_start: &Vec<bool>, p: usize, found: bool, out: &mut Vec<Edge>)
        requires
            self.wf(),
            p < b@.len(),
            is_start@.len() == b@.len() + 1,
            is_start@[b@.len() as int],
            forall|x: int| 0 <= x <= b@.len() ==> #[trigger] is_start@[x] == is_char_boundary(b@, x),
        ensures
            final(out)@.len() >= old(out)@.len(),
            !found ==> final(out)@.len() > old(out)@.len(),
            forall|j: int| 0 <= j < old(out)@.len() ==> #[trigger] final(out)@[j] == old(out)@[j],
            forall|j: int|
                old(out)@.len() <= j < final(out)@.len() ==> {
                    let e = #[trigger] final(out)@[j];
                    &&& edge_ok(p as int, e, b@.len(), self.dictionary.connection_cost_matrix)
                    &&& is_start@[p + e.len]
                    &&& self.unknown_edge(b@, p as int, found, e)
                },
            forall|i: int, k: int|
                self.unknown_due(b@, p as int, found, i, k) ==> exists|j: int|
                    old(out)@.len() <= j < final(out)@.len() && final(out)@[j] == #[trigger] self.unknown_candidate(
                        b@,
                        p as int,
                        i,
                        k,
                    ),
    {
        let n = b.len();
        let cd = &self.dictionary.character_definition;
        let ud = &self.dictionary.unknown_dictionary;
        let cp = code_point_at(b, p);
        let cats = cd.lookup_categories(cp);
        let ghost start = out@;
        let ghost bs = b@;
        let ghost pi = p as int;
        let mut i: usize = 0;
        while i < cats.len()
            invariant
                self.wf(),
                n == b@.len(),
                bs == b@,
                pi == p,
                p < n,
                is_start@.len() == n + 1,
                is_start@[n as int],
                forall|x: int| 0 <= x <= n ==> #[trigger] is_start@[x] == is_char_boundary(b@, x),
                *cd == self.dictionary.character_definition,
                *ud == self.dictionary.unknown_dictionary,
                cats@ == cd.categories_of(code_point(b@, p as int)),
                crate::character::valid_ids(cats@, cd.categories@.len()),
                start == old(out)@,
                i <= cats@.len(),
                out@.len() >= start.len(),
                !found && i > 0 ==> out@.len() > start.len(),
                forall|j: int| 0 <= j < start.len() ==> #[trigger] out@[j] == start[j],
                forall|j: int|
                    start.len() <= j < out@.len() ==> {
                        let e = #[trigger] out@[j];
                        &&& edge_ok(p as int, e, n as nat, self.dictionary.connection_cost_matrix)
                        &&& is_start@[p + e.len]
                        &&& self.unknown_edge(bs, pi, found, e)
                    },
                forall|ii: int, kk: int|
                    #[trigger] self.unknown_due(bs, pi, found, ii, kk) && ii < i ==> exists|j: int|
                        start.len() <= j < out@.len() && out@[j] == self.unknown_candidate(bs, pi, ii, kk),
            decreases cats@.len() - i,
        {
            let c = cats[i];
            assert(c < cd.categories@.len());
            if !found || cd.invokes(c) {
                let end = if cd.groups(c) {
                    self.group_end(b, is_start, p, c)
                } else {
                    let q = next_start(is_start, p, n);
                    proof {
                        assert forall|y: int| p + 1 <= y < q implies !is_char_boundary(b@, y) by {
                            assert(!is_start@[y]);
                        }
                        lemma_boundary_from(b@, p + 1, q as int);
                    }
                    q
                };
                let len = end - p;
                assert(len as int == self.unknown_len(bs, pi, c));
                let entries = ud.entries_for(c);
                assert(entries@.len() > 0);
                let mut k: usize = 0;
                while k < entries.len()
                    invariant
                        self.wf(),
                        n == b@.len(),
                        bs == b@,
                        pi == p,
                        p < end <= n,
                        len == end - p,
                        len as int == self.unknown_len(bs, pi, c),
                        is_start@.len() == n + 1,
                        is_start@[end as int],
                        *cd == self.dictionary.character_definition,
                        *ud == self.dictionary.unknown_dictionary,
                        cats@ == cd.categories_of(code_point(b@, p as int)),
                        i < cats@.len(),
                        c == cats@[i as int],
                        c < ud.entries@.len(),
                        !found || cd.categories@[c as int].invoke,
                        entries@ == ud.entries@[c as int]@,
                        start == old(out)@,
                        k <= entries@.len(),
                        out@.len() >= start.len(),
                        !found && i > 0 ==> out@.len() > start.len(),
                        !found && k > 0 ==> out@.len() > start.len(),
                        forall|j: int| 0 <= j < start.len() ==> #[trigger] out@[j] == start[j],
                        forall|j: int|
                            start.len() <= j < out@.len() ==> {
                                let e = #[trigger] out@[j];
                                &&& edge_ok(p as int, e, n as nat, self.dictionary.connection_cost_matrix)
                                &&& is_start@[p + e.len]
                                &&& self.unknown_edge(bs, pi, found, e)
                            },
                        forall|ii: int, kk: int|
                            #[trigger] self.unknown_due(bs, pi, found, ii, kk) && (ii < i || (ii == i && kk < k))
                                ==> exists|j: int| start.len() <= j < out@.len() && out@[j] == self.unknown_candidate(bs, pi, ii, kk),
                    decreases entries@.len() - k,
                {
                    let entry = entries[k];
                    let ghost before = out@;
                    out.push(Edge { len, entry });
                    assert(crate::tokenizer::ids_in(self.dictionary.connection_cost_matrix, ud.entries@[c as int]@[k as int]));
                    assert(self.unknown_due(bs, pi, found, i as int, k as int));
                    assert(self.unknown_candidate(bs, pi, i as int, k as int) == Edge { len, entry });
                    assert forall|j: int| start.len() <= j < out@.len() implies {
                        let e = #[trigger] out@[j];
                        &&& edge_ok(p as int, e, n as nat, self.dictionary.connection_cost_matrix)
                        &&& is_start@[p + e.len]
                        &&& self.unknown_edge(bs, pi, found, e)
                    } by {
                        if j < before.len() {
                            assert(out@[j] == before[j]);
                        }
                    }
                    assert forall|ii: int, kk: int|
                        #[trigger] self.unknown_due(bs, pi, found, ii, kk) && (ii < i || (ii == i && kk < k + 1))
                        implies exists|j: int| start.len() <= j < out@.len() && out@[j] == self.unknown_candidate(bs, pi, ii, kk) by {
                        if ii < i || kk < k {
                            let j = choose|j: int| start.len() <= j < before.len() && before[j] == self.unknown_candidate(bs, pi, ii, kk);
                            assert(out@[j] == before[j]);
                        } else {
                            assert(out@[before.len() as int] == Edge { len, entry });
                        }
                    }
                    k += 1;
                }
            } else {
                assert forall|ii: int, kk: int|
                    #[trigger] self.unknown_due(bs, pi, found, ii, kk) && ii < i + 1
                    implies exists|j: int| start.len() <= j < out@.len() && out@[j] == self.unknown_candidate(bs, pi, ii, kk) by {
                    if ii == i {
                        assert(!self.unknown_due(bs, pi, found, ii, kk));
                    }
                }
            }
            i += 1;
        }
    }

    /// Whether a word of either dictionary starts at `p` and ends at a
    /// character start.
    pub open spec fn dictionary_found(&self, b: Seq<u8>, p: int) -> bool {
        exists|len: usize, e: WordEntry|
            #[trigger] self.dictionary_word(b, p, len, e) && len >= 1 && p + len <= b.len() && is_char_boundary(
                b,
                p + len,
            )
    }

    /// Whether `len` bytes from `p` on are a user dictionary word with record
    /// `e`, ending at a character start.
    pub open spec fn user_word(&self, b: Seq<u8>, p: int, len: usize, e: WordEntry) -> bool {
        &&& self.user_dictionary matches Some(u) && from_dictionary(u, suffix(b, p), len, e)
        &&& len >= 1
        &&& p + len <= b.len()
        &&& is_char_boundary(b, p + len)
    }

    /// Whether some user word at `p` is a twin of `e`.
    pub open spec fn has_user_twin(&self, b: Seq<u8>, p: int, e: Edge) -> bool {
        exists|len: usize, u: WordEntry| #[trigger] self.user_word(b, p, len, u) && twins(Edge { len, entry: u }, e)
    }

    /// Whether `e` is a candidate of the lattice of `b` at `p`: a candidate
    /// (see `raw_candidate`) that is a user word or has no user word as twin.
    /// A twin costs the same and leaves the same context, so dropping it
    /// keeps the cost of every path and settles ties for the user word.
    pub open spec fn lattice_candidate(&self, b: Seq<u8>, p: int, e: Edge) -> bool {
        &&& self.raw_candidate(b, p, e)
        &&& (self.user_word(b, p, e.len, e.entry) || !self.has_user_twin(b, p, e))
    }

    /// Whether `e` is a word of either dictionary at `p` ending at a character
    /// start, or a due fallback candidate. Candidates start only at characters.
    pub open spec fn raw_candidate(&self, b: Seq<u8>, p: int, e: Edge) -> bool {
        &&& 0 <= p < b.len()
        &&& is_char_boundary(b, p)
        &&& {
            ||| (self.dictionary_word(b, p, e.len, e.entry) && e.len >= 1 && p + e.len <= b.len()
                && is_char_boundary(b, p + e.len))
            ||| self.unknown_edge(b, p, self.dictionary_found(b, p), e)
        }
    }

    /// Whether `ts` segments `b` along candidates of its lattice.
    pub open spec fn lattice_path(&self, b: Seq<u8>, ts: Seq<Token>) -> bool {
        &&& is_partition(ts, b.len())
        &&& forall|i: int|
            0 <= i < ts.len() ==> self.lattice_candidate(
                b,
                (#[trigger] ts[i]).start as int,
                Edge { len: (ts[i].end - ts[i].start) as usize, entry: ts[i].entry },
            )
    }

    /// The candidates at character start `p`: user dictionary words, then
    /// system dictionary words, then the due fallback candidates.
    #[verifier::rlimit(60)]
    fn raw_candidates_at(&self, b: &[u8], is_start: &Vec<bool>, p: usize) -> (r: Result<(Vec<Edge>, usize), DictionaryError>)
        requires
            self.wf(),
            p < b@.len(),
            is_start@.len() == b@.len() + 1,
            forall|x: int| 0 <= x <= b@.len() ==> #[trigger] is_start@[x] == is_char_boundary(b@, x),
            is_start@[b@.len() as int],
            is_start@[p as int],
        ensures
            r is Ok <==> self.sound_at(b@, p as int),
            r matches Ok((es, nu)) ==> es@.len() > 0 && nu <= es@.len(),
            r matches Ok((es, nu)) ==> forall|j: int|
                0 <= j < es@.len() ==> {
                    let e = #[trigger] es@[j];
                    &&& edge_ok(p as int, e, b@.len(), self.dictionary.connection_cost_matrix)
                    &&& self.raw_candidate(b@, p as int, e)
                },
            r matches Ok((es, nu)) ==> forall|j: int|
                0 <= j < nu ==> self.user_word(b@, p as int, (#[trigger] es@[j]).len, es@[j].entry),
            r is Ok ==> forall|e: Edge|
                #[trigger] self.raw_candidate(b@, p as int, e) ==> exists|j: int|
                    0 <= j < r->Ok_0.0@.len() && r->Ok_0.0@[j] == e,
            r is Ok ==> forall|len: usize, u: WordEntry|
                #[trigger] self.user_word(b@, p as int, len, u) ==> exists|j: int|
                    0 <= j < r->Ok_0.1 && r->Ok_0.0@[j] == (Edge { len, entry: u }),
    {
        let n = b.len();
        let mut es: Vec<Edge> = Vec::new();
        if let Some(u) = &self.user_dictionary {
            match self.push_dictionary_candidates(u, b, is_start, p, &mut es) {
                Ok(()) => {},
                Err(e) => {
                    return Err(e);
                },
            }
        }
        let nu = es.len();
        let ghost after_user = es@;
        assert forall|len: usize, u: WordEntry| #[trigger] self.user_word(b@, p as int, len, u) implies exists|j: int|
            0 <= j < nu && es@[j] == (Edge { len, entry: u }) by {
            assert(is_start@[p + len]);
        }
        match self.push_dictionary_candidates(&self.dictionary.prefix_dictionary, b, is_start, p, &mut es) {
            Ok(()) => {},
            Err(e) => {
                return Err(e);
            },
        }
        let ghost after_sys = es@;
        let found = es.len() > 0;
        assert forall|len: usize, e: WordEntry|
            #[trigger] self.dictionary_word(b@, p as int, len, e) && len >= 1 && p + len <= n && is_start@[p + len]
            implies exists|j: int| 0 <= j < after_sys.len() && after_sys[j] == (Edge { len, entry: e }) by {
            if from_dictionary(self.dictionary.prefix_dictionary, suffix(b@, p as int), len, e) {
                let j = choose|j: int| after_user.len() <= j < after_sys.len() && #[trigger] after_sys[j] == (Edge { len, entry: e });
            } else {
                let j = choose|j: int| 0 <= j < after_user.len() && #[trigger] after_user[j] == (Edge { len, entry: e });
                assert(after_sys[j] == after_user[j]);
            }
        }
        assert(found == self.dictionary_found(b@, p as int)) by {
            if found {
                let e0 = after_sys[0];
                if 0 < after_user.len() {
                    assert(after_sys[0] == after_user[0]);
                }
                assert(is_start@[p + e0.len]);
                assert(self.dictionary_word(b@, p as int, e0.len, e0.entry));
            }
            if self.dictionary_found(b@, p as int) {
                let (len, e) = choose|len: usize, e: WordEntry|
                    #[trigger] self.dictionary_word(b@, p as int, len, e) && len >= 1 && p + len <= b@.len()
                        && is_char_boundary(b@, p + len);
                assert(is_start@[p + len]);
            }
        }
        self.push_unknown_candidates(b, is_start, p, found, &mut es);
        assert forall|j: int| 0 <= j < es@.len() implies {
            let e = #[trigger] es@[j];
            &&& edge_ok(p as int, e, b@.len(), self.dictionary.connection_cost_matrix)
            &&& self.raw_candidate(b@, p as int, e)
        } by {
            let e = es@[j];
            if j < after_sys.len() {
                assert(es@[j] == after_sys[j]);
                if j < after_user.len() {
                    assert(after_sys[j] == after_user[j]);
                }
            }
            assert(is_start@[p + e.len]);
        }
        assert forall|e: Edge| #[trigger] self.raw_candidate(b@, p as int, e) implies exists|j: int|
            0 <= j < es@.len() && es@[j] == e by {
            if self.dictionary_word(b@, p as int, e.len, e.entry) && e.len >= 1 && p + e.len <= b@.len()
                && is_char_boundary(b@, p + e.len) {
                assert(is_start@[p + e.len]);
                let j = choose|j: int| 0 <= j < after_sys.len() && after_sys[j] == (Edge { len: e.len, entry: e.entry });
                assert(es@[j] == after_sys[j]);
            } else {
                let (i, k) = choose|i: int, k: int|
                    self.unknown_due(b@, p as int, found, i, k) && #[trigger] self.unknown_candidate(b@, p as int, i, k) == e;
                assert(self.unknown_due(b@, p as int, found, i, k));
            }
        }
        assert forall|j: int| 0 <= j < nu implies self.user_word(b@, p as int, (#[trigger] es@[j]).len, es@[j].entry) by {
            assert(es@[j] == after_sys[j]);
            assert(after_sys[j] == after_user[j]);
            let e = after_user[j];
            assert(is_start@[p + e.len]);
        }
        assert forall|len: usize, u: WordEntry| #[trigger] self.user_word(b@, p as int, len, u) implies exists|j: int|
            0 <= j < nu && es@[j] == (Edge { len, entry: u }) by {
            let j = choose|j: int| 0 <= j < nu && after_user[j] == (Edge { len, entry: u });
            assert(after_sys[j] == after_user[j]);
            assert(es@[j] == after_sys[j]);
        }
        let r: Result<(Vec<Edge>, usize), DictionaryError> = Ok((es, nu));
        assert(r->Ok_0.0@ == es@);
        r
    }

    /// The candidates at character start `p`: user dictionary words, then
    /// system dictionary words, then the due fallback candidates, less those
    /// that have a user word as twin.
    #[verifier::rlimit(60)]
    fn candidates_at(&self, b: &[u8], is_start: &Vec<bool>, p: usize) -> (r: Result<Vec<Edge>, DictionaryError>)
        requires
            self.wf(),
            p < b@.len(),
            is_start@.len() == b@.len() + 1,
            forall|x: int| 0 <= x <= b@.len() ==> #[trigger] is_start@[x] == is_char_boundary(b@, x),
            is_start@[b@.len() as int],
            is_start@[p as int],
        ensures
            r is Ok <==> self.sound_at(b@, p as int),
            r matches Ok(es) ==> es@.len() > 0,
            r matches Ok(es) ==> forall|j: int|
                0 <= j < es@.len() ==> {
                    let e = #[trigger] es@[j];
                    &&& edge_ok(p as int, e, b@.len(), self.dictionary.connection_cost_matrix)
                    &&& self.lattice_candidate(b@, p as int, e)
                },
            r is Ok ==> forall|e: Edge|
                #[trigger] self.lattice_candidate(b@, p as int, e) ==> exists|j: int|
                    0 <= j < r->Ok_0@.len() && r->Ok_0@[j] == e,
    {
        let (es, nu) = match self.raw_candidates_at(b, is_start, p) {
            Ok(x) => x,
            Err(e) => {
                return Err(e);
            },
        };
        let ghost bs = b@;
        let ghost pi = p as int;
        proof {
            assert forall|e: Edge| self.has_user_twin(bs, pi, e) implies exists|k: int|
                0 <= k < nu && twins(#[trigger] es@[k], e) by {
                let (len, u) = choose|len: usize, u: WordEntry|
                    #[trigger] self.user_word(bs, pi, len, u) && twins(Edge { len, entry: u }, e);
                let k = choose|k: int| 0 <= k < nu && es@[k] == (Edge { len, entry: u });
                assert(twins(es@[k], e));
            }
        }
        let mut out: Vec<Edge> = Vec::new();
        let mut j: usize = 0;
        while j < es.len()
            invariant
                self.wf(),
                bs == b@,
                pi == p,
                nu <= es@.len(),
                j <= es@.len(),
                es@.len() > 0,
                forall|x: int|
                    0 <= x < es@.len() ==> {
                        let e = #[trigger] es@[x];
                        &&& edge_ok(p as int, e, b@.len(), self.dictionary.connection_cost_matrix)
                        &&& self.raw_candidate(b@, p as int, e)
                    },
                forall|x: int| 0 <= x < nu ==> self.user_word(bs, pi, (#[trigger] es@[x]).len, es@[x].entry),
                forall|e: Edge| self.has_user_twin(bs, pi, e) ==> exists|k: int| 0 <= k < nu && twins(#[trigger] es@[k], e),
                forall|x: int|
                    0 <= x < out@.len() ==> {
                        let e = #[trigger] out@[x];
                        &&& edge_ok(p as int, e, b@.len(), self.dictionary.connection_cost_matrix)
                        &&& self.lattice_candidate(bs, pi, e)
                    },
                forall|x: int|
                    0 <= x < j && (x < nu || !(exists|k: int| 0 <= k < nu && twins(#[trigger] es@[k], es@[x])))
                        ==> exists|y: int| 0 <= y < out@.len() && out@[y] == #[trigger] es@[x],
                j > 0 ==> out@.len() > 0,
            decreases es@.len() - j,
        {
            let e = es[j];
            let keep = j < nu || !has_twin_before(&es, nu, e);
            let ghost before = out@;
            if keep {
                out.push(e);
                assert(out@[before.len() as int] == e);
                assert(self.lattice_candidate(bs, pi, e));
            }
            assert forall|x: int| 0 <= x < out@.len() implies {
                let e2 = #[trigger] out@[x];
                &&& edge_ok(p as int, e2, b@.len(), self.dictionary.connection_cost_matrix)
                &&& self.lattice_candidate(bs, pi, e2)
            } by {
                if x < before.len() {
                    assert(out@[x] == before[x]);
                }
            }
            assert forall|x: int|
                0 <= x < j + 1 && (x < nu || !(exists|k: int| 0 <= k < nu && twins(#[trigger] es@[k], es@[x])))
                implies exists|y: int| 0 <= y < out@.len() && out@[y] == #[trigger] es@[x] by {
                if x < j {
                    let y = choose|y: int| 0 <= y < before.len() && before[y] == es@[x];
                    assert(out@[y] == before[y]);
                } else {
                    assert(out@[before.len() as int] == e);
                }
            }
            if j == 0 {
                assert(keep);
            }
            j += 1;
        }
        assert forall|e: Edge| #[trigger] self.lattice_candidate(bs, pi, e) implies exists|y: int|
            0 <= y < out@.len() && out@[y] == e by {
            if self.user_word(bs, pi, e.len, e.entry) {
                let x = choose|x: int| 0 <= x < nu && es@[x] == (Edge { len: e.len, entry: e.entry });
                assert(es@[x] == e);
            } else {
                let x = choose|x: int| 0 <= x < es@.len() && es@[x] == e;
                assert(!(exists|k: int| 0 <= k < nu && twins(#[trigger] es@[k], es@[x])));
            }
        }
        let r: Result<Vec<Edge>, DictionaryError> = Ok(out);
        assert(r->Ok_0@ == out@);
        r
    }

    /// Splits `text` into words along a minimum-cost path of its lattice:
    /// the tokens cover the text from its first byte to its last, in order,
    /// each a candidate of the lattice where it starts, and no segmentation
    /// along candidates costs less. Fails exactly where a dictionary lookup
    /// at some character start meets a record run outside its buffer or a
    /// context id outside the matrix.
    pub fn tokenize(&self, text: &str) -> (r: Result<Vec<Token>, DictionaryError>)
        requires
            self.wf(),
        ensures
            r is Ok <==> self.sound_on(text.spec_bytes()),
            r matches Ok(ts) ==> self.lattice_path(text.spec_bytes(), ts@),
            r matches Ok(ts) ==> forall|i: int|
                0 <= i < ts@.len() && self.has_user_twin(
                    text.spec_bytes(),
                    (#[trigger] ts@[i]).start as int,
                    Edge { len: (ts@[i].end - ts@[i].start) as usize, entry: ts@[i].entry },
                ) ==> self.user_word(
                    text.spec_bytes(),
                    ts@[i].start as int,
                    (ts@[i].end - ts@[i].start) as usize,
                    ts@[i].entry,
                ),
            r matches Ok(ts) ==> forall|o: Seq<Token>|
                self.lattice_path(text.spec_bytes(), o) ==> path_cost(self.dictionary.connection_cost_matrix, ts@)
                    <= path_cost(self.dictionary.connection_cost_matrix, o),
    {
        let b = text.as_bytes();
        let n = b.len();
        proof {
            encode_utf8_valid_utf8(text@);
            is_char_boundary_start_end_of_seq(b@);
        }
        let mut is_start: Vec<bool> = Vec::new();
        let mut i: usize = 0;
        while i < n
            invariant
                n == b@.len(),
                b@ == text.spec_bytes(),
                i <= n,
                is_start@.len() == i,
                forall|x: int| 0 <= x < i ==> #[trigger] is_start@[x] == is_char_boundary(b@, x),
            decreases n - i,
        {
            is_start.push(text.is_char_boundary(i));
            i += 1;
        }
        is_start.push(text.is_char_boundary(n));
        assert(is_start@.len() == n + 1);
        assert(is_start@[n as int]);
        let m = &self.dictionary.connection_cost_matrix;
        let mut edges: Vec<Vec<Edge>> = Vec::new();
        let mut p: usize = 0;
        while p < n
            invariant
                self.wf(),
                n == b@.len(),
                b@ == text.spec_bytes(),
                *m == self.dictionary.connection_cost_matrix,
                is_start@.len() == n + 1,
                is_start@[n as int],
                forall|x: int| 0 <= x <= n ==> #[trigger] is_start@[x] == is_char_boundary(b@, x),
                p <= n,
                edges@.len() == p,
                forall|q: int, j: int|
                    0 <= q < p && 0 <= j < edges@[q]@.len() ==> {
                        let e = #[trigger] edges@[q]@[j];
                        &&& edge_ok(q, e, n as nat, *m)
                        &&& self.lattice_candidate(b@, q, e)
                    },
                forall|q: int| 0 <= q < p && q < n && is_start@[q] ==> (#[trigger] edges@[q])@.len() > 0,
                forall|q: int| 0 <= q < p && q < n && is_start@[q] ==> #[trigger] self.sound_at(b@, q),
                forall|q: int, e: Edge|
                    0 <= q < p && #[trigger] self.lattice_candidate(b@, q, e) ==> exists|j: int|
                        0 <= j < edges@[q]@.len() && edges@[q]@[j] == e,
            decreases n - p,
        {
            let es = if is_start[p] {
                match self.candidates_at(b, &is_start, p) {
                    Ok(es) => es,
                    Err(e) => {
                        assert(!self.sound_at(b@, p as int));
                        return Err(e);
                    },
                }
            } else {
                let none: Vec<Edge> = Vec::new();
                assert forall|e: Edge| !self.lattice_candidate(b@, p as int, e) by {
                    assert(!is_start@[p as int]);
                }
                none
            };
            let ghost old_edges = edges@;
            edges.push(es);
            assert forall|q: int, e: Edge|
                0 <= q < p + 1 && #[trigger] self.lattice_candidate(b@, q, e) implies exists|j: int|
                    0 <= j < edges@[q]@.len() && edges@[q]@[j] == e by {
                if q < p {
                    assert(edges@[q] == old_edges[q]);
                } else {
                    assert(edges@[q]@ == es@);
                    let j = choose|j: int| 0 <= j < es@.len() && es@[j] == e;
                    assert(edges@[q]@[j] == e);
                }
            }
            assert forall|q: int, j: int|
                0 <= q < p + 1 && 0 <= j < edges@[q]@.len() implies {
                    let e = #[trigger] edges@[q]@[j];
                    &&& edge_ok(q, e, n as nat, *m)
                    &&& self.lattice_candidate(b@, q, e)
                } by {
                if q < p {
                    assert(edges@[q] == old_edges[q]);
                }
            }
            p += 1;
        }
        let ghost before_end = edges@;
        edges.push(Vec::new());
        assert forall|q: int, j: int|
            0 <= q <= n && 0 <= j < edges@[q]@.len() implies {
                let e = #[trigger] edges@[q]@[j];
                &&& edge_ok(q, e, n as nat, *m)
                &&& self.lattice_candidate(b@, q, e)
            } by {
            assert(edges@[q] == before_end[q] || q == n);
        }
        assert(lattice_ok(edges@, n as nat, *m)) by {
            assert forall|q: int, j: int| 0 <= q <= n && 0 <= j < edges@[q]@.len() implies edge_ok(
                q,
                #[trigger] edges@[q]@[j],
                n as nat,
                *m,
            ) by {
                let e = edges@[q]@[j];
                assert(edge_ok(q, e, n as nat, *m));
            }
        }
        assert(steps_through(edges@, is_start@, n as nat)) by {
            assert(is_start@[0]);
            assert forall|q: int| 0 <= q < n && #[trigger] is_start@[q] implies edges@[q]@.len() > 0
                && forall|j: int| 0 <= j < edges@[q]@.len() ==> #[trigger] is_start@[q + edges@[q]@[j].len] by {
                assert forall|j: int| 0 <= j < edges@[q]@.len() implies #[trigger] is_start@[q + edges@[q]@[j].len] by {
                    let e = edges@[q]@[j];
                    assert(self.lattice_candidate(b@, q, e));
                    assert(edge_ok(q, e, n as nat, *m));
                    if !(self.dictionary_word(b@, q, e.len, e.entry) && e.len >= 1 && q + e.len <= b@.len()
                        && is_char_boundary(b@, q + e.len)) {
                        let found = self.dictionary_found(b@, q);
                        let (ii, kk) = choose|ii: int, kk: int|
                            self.unknown_due(b@, q, found, ii, kk) && #[trigger] self.unknown_candidate(b@, q, ii, kk) == e;
                        self.lemma_unknown_end(b@, q, ii);
                    }
                }
            }
        }
        assert(self.sound_on(b@)) by {
            assert forall|q: int| 0 <= q < b@.len() && is_char_boundary(b@, q) implies #[trigger] self.sound_at(b@, q) by {
                assert(is_start@[q]);
            }
        }
        match best_path(&edges, n, m) {
            Some(ts) => {
                assert forall|i: int| 0 <= i < ts@.len() implies self.lattice_candidate(
                    b@,
                    (#[trigger] ts@[i]).start as int,
                    Edge { len: (ts@[i].end - ts@[i].start) as usize, entry: ts@[i].entry },
                ) by {
                    let t = ts@[i];
                    assert(token_in(edges@, t));
                    let j = choose|j: int|
                        0 <= j < edges@[t.start as int]@.len() && #[trigger] edges@[t.start as int]@[j] == (Edge {
                            len: (t.end - t.start) as usize,
                            entry: t.entry,
                        });
                }
                assert forall|o: Seq<Token>| self.lattice_path(b@, o) implies is_lattice_path(edges@, o, n as nat) by {
                    assert forall|i: int| 0 <= i < o.len() implies token_in(edges@, #[trigger] o[i]) by {
                        let t = o[i];
                        let e = Edge { len: (t.end - t.start) as usize, entry: t.entry };
                        assert(self.lattice_candidate(b@, t.start as int, e));
                        let j = choose|j: int| 0 <= j < edges@[t.start as int]@.len() && edges@[t.start as int]@[j] == e;
                        assert(edges@[t.start as int]@[j] == e);
                    }
                }
                Ok(ts)
            },
            None => {
                assert(false);
                Ok(Vec::new())
            },
        }
    }
}

} // verus!
