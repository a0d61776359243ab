use kuromoji::word_entry::SYNTHETIC_WORD_ID;
use kuromoji::{WordEntry, WordId};

fn entry(word_cost: i16, cost_id: u16) -> WordEntry {
    WordEntry { word_id: WordId(SYNTHETIC_WORD_ID), word_cost, cost_id }
}

#[test]
fn test_word_entry() {
    let mut buffer = Vec::new();
    let word_entry = entry(-17, 1411);
    word_entry.serialize(&mut buffer);
    assert_eq!(WordEntry::SERIALIZED_LEN, buffer.len());
    let word_entry2 = WordEntry::deserialize(&buffer[..]);
    assert_eq!(word_entry, word_entry2);
}

#[test]
fn test_wordentry() {
    fn test_serdeser(word_cost: i16, cost_id: u16) {
        let word_entry = entry(word_cost, cost_id);
        assert_eq!(word_entry, WordEntry::decode_from_u64(word_entry.encode_as_u64()));
    }
    test_serdeser(-1, 0);
    test_serdeser(-1, 1);
}

#[test]
fn serialized_bytes_are_little_endian() {
    let mut buffer = vec![7u8];
    entry(-17, 1411).serialize(&mut buffer);
    assert_eq!(buffer, vec![7u8, 0xEF, 0xFF, 0x83, 0x05]);
}

#[test]
fn deserialize_reads_known_bytes() {
    let e = WordEntry::deserialize(&[0x10, 0x27, 0x01, 0x00, 0xAA]);
    assert_eq!(e.word_cost, 10000);
    assert_eq!(e.cost_id, 1);
    assert_eq!(e.word_id, WordId(SYNTHETIC_WORD_ID));
    let e = WordEntry::deserialize(&[0x00, 0x80, 0xFF, 0xFF]);
    assert_eq!(e.word_cost, i16::MIN);
    assert_eq!(e.cost_id, u16::MAX);
}

#[test]
fn round_trip_keeps_costs_but_not_word_id() {
    let e = WordEntry { word_id: WordId(42), word_cost: 300, cost_id: 7 };
    let mut buffer = Vec::new();
    e.serialize(&mut buffer);
    let back = WordEntry::deserialize(&buffer);
    assert_eq!((back.word_cost, back.cost_id), (300, 7));
    assert_eq!(back.word_id, WordId(SYNTHETIC_WORD_ID));
}

#[test]
fn encode_as_u64_packs_cost_id_high() {
    assert_eq!(entry(5, 3).encode_as_u64(), (3u64 << 32) + 5);
    assert_eq!(entry(-1, 0).encode_as_u64(), 0xFFFF_FFFF);
    let d = WordEntry::decode_from_u64((9u64 << 32) + 0xFFFF_FF85);
    assert_eq!((d.word_cost, d.cost_id), (-123, 9));
}

#[test]
fn left_and_right_ids_are_the_cost_id() {
    let e = entry(0, 1285);
    assert_eq!(e.left_id(), 1285);
    assert_eq!(e.right_id(), 1285);
}
