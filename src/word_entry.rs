//! Cost records of dictionary words and their fixed-width byte codec.
use byteorder::{ByteOrder, LittleEndian};
use vstd::prelude::*;

verus! {

/// Value of two bytes read low byte first.
pub open spec fn le_u16(lo: u8, hi: u8) -> int {
    lo as int + 256 * hi as int
}

/// Two's complement reading of a 16-bit pattern.
pub open spec fn signed16(u: int) -> int {
    if u >= 0x8000 {
        u - 0x10000
    } else {
        u
    }
}

/// Relies on byteorder's `LittleEndian::read_u16`: the first two bytes, low byte first.
#[verifier::external_body]
pub(crate) fn read_u16_le(buf: &[u8]) -> (r: u16)
    requires
        buf@.len() >= 2,
    ensures
        r as int == le_u16(buf@[0], buf@[1]),
{
    LittleEndian::read_u16(buf)
}

/// Relies on byteorder's `LittleEndian::read_i16`: the first two bytes, low
/// byte first, as a two's complement number.
#[verifier::external_body]
pub(crate) fn read_i16_le(buf: &[u8]) -> (r: i16)
    requires
        buf@.len() >= 2,
    ensures
        r as int == signed16(le_u16(buf@[0], buf@[1])),
{
    LittleEndian::read_i16(buf)
}

/// Relies on byteorder's `LittleEndian::write_u16`: low byte first.
#[verifier::external_body]
pub(crate) fn u16_le_bytes(n: u16) -> (r: [u8; 2])
    ensures
        le_u16(r@[0], r@[1]) == n as int,
{
    let mut buf = [0u8; 2];
    LittleEndian::write_u16(&mut buf, n);
    buf
}

/// Relies on byteorder's `LittleEndian::write_i16`: two's complement, low byte first.
#[verifier::external_body]
pub(crate) fn i16_le_bytes(n: i16) -> (r: [u8; 2])
    ensures
        signed16(le_u16(r@[0], r@[1])) == n as int,
{
    let mut buf = [0u8; 2];
    LittleEndian::write_i16(&mut buf, n);
    buf
}

/// Index of a word in the table of word details.
#[derive(Clone, Copy, Debug, PartialEq, Eq, Structural)]
pub struct WordId(pub u32);

/// The id that marks an entry with no word details (an unknown-word entry).
pub const SYNTHETIC_WORD_ID: u32 = 0xFFFF_FFFF;

/// Cost data of one dictionary word.
#[derive(Clone, Copy, Debug, PartialEq, Eq, Structural)]
pub struct WordEntry {
    pub word_id: WordId,
    pub word_cost: i16,
    pub cost_id: u16,
}

/// Packing of an entry into a 64-bit value: `cost_id` in the high half and
/// the two's complement of `word_cost` in the low half.
pub open spec fn encoded_u64(e: WordEntry) -> int {
    e.cost_id as int * 0x1_0000_0000 + if e.word_cost >= 0 {
        e.word_cost as int
    } else {
        e.word_cost as int + 0x1_0000_0000
    }
}

/// Low 16 bits of a value, read as a two's complement number.
pub open spec fn low_i16(v: int) -> int {
    signed16(v % 0x10000)
}

/// The four bytes of an entry: `word_cost` then `cost_id`, each low byte first.
pub open spec fn serialized(e: WordEntry, b: Seq<u8>) -> bool {
    &&& b.len() == 4
    &&& signed16(le_u16(b[0], b[1])) == e.word_cost as int
    &&& le_u16(b[2], b[3]) == e.cost_id as int
}

impl WordEntry {
    pub const SERIALIZED_LEN: usize = 4;

    /// An entry that carries no word details.
    pub fn synthetic(word_cost: i16, cost_id: u16) -> (r: WordEntry)
        ensures
            r.word_id.0 == SYNTHETIC_WORD_ID,
            r.word_cost == word_cost,
            r.cost_id == cost_id,
    {
        WordEntry { word_id: WordId(SYNTHETIC_WORD_ID), word_cost, cost_id }
    }

    pub fn decode_from_u64(encoded_value: u64) -> (r: WordEntry)
        ensures
            r.word_id.0 == SYNTHETIC_WORD_ID,
            r.word_cost as int == low_i16(encoded_value as int),
            r.cost_id as int == (encoded_value as int / 0x1_0000_0000) % 0x10000,
    {
        let low: u64 = encoded_value % 0x10000;
        let word_cost: i16 = if low >= 0x8000 {
            (low as i64 - 0x10000) as i16
        } else {
            low as i16
        };
        let cost_id = ((encoded_value / 0x1_0000_0000) % 0x10000) as u16;
        WordEntry::synthetic(word_cost, cost_id)
    }

    pub fn encode_as_u64(&self) -> (r: u64)
        ensures
            r as int == encoded_u64(*self),
    {
        let cost_shifted: u64 = (self.cost_id as u64) * 0x1_0000_0000;
        let word_cost_cast: u64 = if self.word_cost >= 0 {
            self.word_cost as u64
        } else {
            (self.word_cost as i64 + 0x1_0000_0000) as u64
        };
        cost_shifted + word_cost_cast
    }

    pub fn left_id(&self) -> (r: u32)
        ensures
            r == self.cost_id as u32,
    {
        self.cost_id as u32
    }

    pub fn right_id(&self) -> (r: u32)
        ensures
            r == self.cost_id as u32,
    {
        self.cost_id as u32
    }

    /// Appends the four bytes of this entry to `wtr`.
    pub fn serialize(&self, wtr: &mut Vec<u8>)
        ensures
            final(wtr)@.len() == old(wtr)@.len() + 4,
            final(wtr)@.subrange(0, old(wtr)@.len() as int) == old(wtr)@,
            serialized(*self, final(wtr)@.subrange(old(wtr)@.len() as int, final(wtr)@.len() as int)),
    {
        let c = i16_le_bytes(self.word_cost);
        let d = u16_le_bytes(self.cost_id);
        wtr.push(c[0]);
        wtr.push(c[1]);
        wtr.push(d[0]);
        wtr.push(d[1]);
        proof {
            let n = old(wtr)@.len() as int;
            let tail = wtr@.subrange(n, wtr@.len() as int);
            assert(tail[0] == c@[0] && tail[1] == c@[1] && tail[2] == d@[0] && tail[3] == d@[1]);
            assert(wtr@.subrange(0, n) =~= old(wtr)@);
        }
    }

    /// Reads an entry from its first four bytes. The word id is not part of
    /// the record: the entry comes back synthetic.
    pub fn deserialize(data: &[u8]) -> (r: WordEntry)
        requires
            data@.len() >= 4,
        ensures
            serialized(r, data@.subrange(0, 4)),
            r.word_id.0 == SYNTHETIC_WORD_ID,
    {
        let word_cost = read_i16_le(&data[0..2]);
        let cost_id = read_u16_le(&data[2..4]);
        WordEntry::synthetic(word_cost, cost_id)
    }
}

/// Two four-byte records that decode to the same costs are the same bytes;
/// hence a record determines the costs it was written from.
proof fn lemma_serialized_unique(e: WordEntry, f: WordEntry, b: Seq<u8>)
    requires
        serialized(e, b),
        serialized(f, b),
    ensures
        e.word_cost == f.word_cost,
        e.cost_id == f.cost_id,
{
}

/// Writing an entry and reading it back gives its costs again, and the
/// entry itself when it carries no word details.
pub proof fn lemma_serialize_round_trip(e: WordEntry, written: Seq<u8>, read: WordEntry)
    requires
        serialized(e, written),
        serialized(read, written),
        read.word_id.0 == SYNTHETIC_WORD_ID,
    ensures
        read.word_cost == e.word_cost,
        read.cost_id == e.cost_id,
        e.word_id.0 == SYNTHETIC_WORD_ID ==> read == e,
{
    lemma_serialized_unique(e, read, written);
}

/// Packing an entry into 64 bits and unpacking it gives its costs again.
pub proof fn lemma_u64_round_trip(e: WordEntry, v: u64, read: WordEntry)
    requires
        v as int == encoded_u64(e),
        read.word_cost as int == low_i16(v as int),
        read.cost_id as int == (v as int / 0x1_0000_0000) % 0x10000,
        read.word_id.0 == SYNTHETIC_WORD_ID,
    ensures
        read.word_cost == e.word_cost,
        read.cost_id == e.cost_id,
        e.word_id.0 == SYNTHETIC_WORD_ID ==> read == e,
{
    let lo: int = if e.word_cost >= 0 { e.word_cost as int } else { e.word_cost as int + 0x1_0000_0000 };
    assert(0 <= lo < 0x1_0000_0000);
    assert(v as int / 0x1_0000_0000 == e.cost_id as int) by (nonlinear_arith)
        requires v as int == e.cost_id as int * 0x1_0000_0000 + lo, 0 <= lo < 0x1_0000_0000;
    assert(v as int % 0x10000 == lo % 0x10000) by (nonlinear_arith)
        requires v as int == e.cost_id as int * 0x1_0000_0000 + lo, 0 <= lo;
}

} // verus!
