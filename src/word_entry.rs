//! The fixed-size word record shared by every dictionary table.
use vstd::prelude::*;

verus! {

/// Length in bytes of one serialized record.
pub const SERIALIZED_LEN: usize = 10;

/// Identifies a word; the flag tells whether it came from a system dictionary.
#[derive(Clone, Copy, Debug, PartialEq, Eq, Structural)]
pub struct WordId {
    pub id: u32,
    pub is_system: bool,
}

/// One dictionary entry: occurrence cost and left/right context ids.
#[derive(Clone, Copy, Debug, PartialEq, Eq, Structural)]
pub struct WordEntry {
    pub word_id: WordId,
    pub word_cost: i16,
    pub left_id: u16,
    pub right_id: u16,
}

/// Little-endian value of two bytes.
pub open spec fn le_u16(b0: u8, b1: u8) -> int {
    b0 as int + 256 * (b1 as int)
}

/// Little-endian value of four bytes.
pub open spec fn le_u32(b0: u8, b1: u8, b2: u8, b3: u8) -> int {
    le_u16(b0, b1) + 65536 * le_u16(b2, b3)
}

/// Two's-complement reading of a 16-bit pattern.
pub open spec fn signed16(v: int) -> int {
    if v >= 32768 {
        v - 65536
    } else {
        v
    }
}

/// The 16-bit pattern of a signed value.
pub open spec fn bits16(v: int) -> int {
    if v < 0 {
        v + 65536
    } else {
        v
    }
}

/// Little-endian bytes of a value below 2^16.
pub open spec fn le_bytes16(v: int) -> Seq<u8> {
    seq![(v % 256) as u8, (v / 256) as u8]
}

/// Little-endian bytes of a value below 2^32.
pub open spec fn le_bytes32(v: int) -> Seq<u8> {
    le_bytes16(v % 65536) + le_bytes16(v / 65536)
}

/// The serialized form of an entry: id, cost, left id, right id, little-endian.
pub open spec fn entry_bytes(e: WordEntry) -> Seq<u8> {
    le_bytes32(e.word_id.id as int) + le_bytes16(bits16(e.word_cost as int)) + le_bytes16(
        e.left_id as int,
    ) + le_bytes16(e.right_id as int)
}

/// The entry that the first record of `b` holds.
pub open spec fn entry_from_bytes(b: Seq<u8>, is_system: bool) -> WordEntry
    recommends
        b.len() >= SERIALIZED_LEN,
{
    WordEntry {
        word_id: WordId { id: le_u32(b[0], b[1], b[2], b[3]) as u32, is_system },
        word_cost: signed16(le_u16(b[4], b[5])) as i16,
        left_id: le_u16(b[6], b[7]) as u16,
        right_id: le_u16(b[8], b[9]) as u16,
    }
}

fn read_u16(data: &[u8], at: usize) -> (r: u16)
    requires
        at + 2 <= data@.len(),
    ensures
        r as int == le_u16(data@[at as int], data@[at + 1]),
{
    data[at] as u16 + 256 * (data[at + 1] as u16)
}

fn push_u16(out: &mut Vec<u8>, v: u16)
    ensures
        final(out)@ == old(out)@ + le_bytes16(v as int),
{
    out.push((v % 256) as u8);
    out.push((v / 256) as u8);
    assert(final(out)@ =~= old(out)@ + le_bytes16(v as int));
}

impl WordEntry {
    /// Writes the record in its fixed-size little-endian form.
    pub fn serialize(&self) -> (r: Vec<u8>)
        ensures
            r@ == entry_bytes(*self),
            r@.len() == SERIALIZED_LEN,
    {
        let mut out: Vec<u8> = Vec::new();
        push_u16(&mut out, (self.word_id.id % 65536) as u16);
        push_u16(&mut out, (self.word_id.id / 65536) as u16);
        let cost_bits: u16 = if self.word_cost < 0 {
            (self.word_cost as i32 + 65536) as u16
        } else {
            self.word_cost as u16
        };
        push_u16(&mut out, cost_bits);
        push_u16(&mut out, self.left_id);
        push_u16(&mut out, self.right_id);
        assert(out@ =~= entry_bytes(*self));
        out
    }

    /// Reads the record at the start of `data`; `is_system` is supplied by the
    /// dictionary the bytes came from.
    pub fn deserialize(data: &[u8], is_system: bool) -> (r: WordEntry)
        requires
            data@.len() >= SERIALIZED_LEN,
        ensures
            r == entry_from_bytes(data@, is_system),
    {
        let lo = read_u16(data, 0);
        let hi = read_u16(data, 2);
        let cost = read_u16(data, 4);
        let left_id = read_u16(data, 6);
        let right_id = read_u16(data, 8);
        let word_cost: i16 = if cost >= 32768 {
            (cost as i32 - 65536) as i16
        } else {
            cost as i16
        };
        WordEntry {
            word_id: WordId { id: lo as u32 + 65536 * (hi as u32), is_system },
            word_cost,
            left_id,
            right_id,
        }
    }
}

/// Serializing an entry and reading it back, with the same origin flag,
/// gives the entry again.
pub proof fn lemma_round_trip(e: WordEntry)
    ensures
        entry_from_bytes(entry_bytes(e), e.word_id.is_system) == e,
{
    let b = entry_bytes(e);
    assert(b.len() == 10);
    let id = e.word_id.id as int;
    assert(le_u32(b[0], b[1], b[2], b[3]) == id);
    assert(signed16(le_u16(b[4], b[5])) == e.word_cost as int);
    assert(le_u16(b[6], b[7]) == e.left_id as int);
    assert(le_u16(b[8], b[9]) == e.right_id as int);
}

} // verus!
