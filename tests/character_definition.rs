use kuromoji::character_definition::{CategoryData, CategoryId};
use kuromoji::CharacterDefinitions;

const DEFAULT: usize = 0;
const SPACE: usize = 1;
const KANJI: usize = 2;
const SYMBOL: usize = 3;
const NUMERIC: usize = 4;
const ALPHA: usize = 5;
const HIRAGANA: usize = 6;
const KATAKANA: usize = 7;
const KANJINUMERIC: usize = 8;

/// The categories and ranges of the IPADIC character definitions that the
/// tests below touch.
fn load() -> CharacterDefinitions {
    let rules = [
        ("DEFAULT", false, true, 0),
        ("SPACE", false, true, 0),
        ("KANJI", false, false, 2),
        ("SYMBOL", true, true, 0),
        ("NUMERIC", true, true, 0),
        ("ALPHA", true, true, 0),
        ("HIRAGANA", false, true, 2),
        ("KATAKANA", true, true, 2),
        ("KANJINUMERIC", true, true, 0),
        ("GREEK", true, true, 0),
        ("CYRILLIC", true, true, 0),
    ];
    let ranges: Vec<(u32, u32, Vec<usize>)> = vec![
        (0x0020, 0x0020, vec![SPACE]),
        (0x0009, 0x0009, vec![SPACE]),
        (0x000A, 0x000A, vec![SPACE]),
        (0x0021, 0x002F, vec![SYMBOL]),
        (0x0030, 0x0039, vec![NUMERIC]),
        (0x003A, 0x0040, vec![SYMBOL]),
        (0x0041, 0x005A, vec![ALPHA]),
        (0x005B, 0x0060, vec![SYMBOL]),
        (0x0061, 0x007A, vec![ALPHA]),
        (0x007B, 0x007E, vec![SYMBOL]),
        (0x3041, 0x309F, vec![HIRAGANA]),
        (0x30A1, 0x30FF, vec![KATAKANA]),
        (0x31F0, 0x31FF, vec![KATAKANA]),
        (0x2E80, 0x2EF3, vec![KANJI]),
        (0x2F00, 0x2FD5, vec![KANJI]),
        (0x3005, 0x3005, vec![KANJI]),
        (0x3007, 0x3007, vec![KANJI]),
        (0x3400, 0x4DB5, vec![KANJI]),
        (0x4E00, 0x9FA5, vec![KANJI]),
        (0xF900, 0xFA2D, vec![KANJI]),
        (0x4E00, 0x4E00, vec![KANJINUMERIC, KANJI]),
        (0x4E8C, 0x4E8C, vec![KANJINUMERIC, KANJI]),
        (0x3000, 0x303F, vec![SYMBOL]),
        (0xFF01, 0xFF0F, vec![SYMBOL]),
    ];
    CharacterDefinitions {
        category_definitions: rules
            .iter()
            .map(|&(_, invoke, group, length)| CategoryData { invoke, group, length })
            .collect(),
        category_names: rules.iter().map(|r| r.0.to_string()).collect(),
        mapping: ranges
            .into_iter()
            .map(|(lo, hi, ids)| (lo, hi, ids.into_iter().map(CategoryId).collect()))
            .collect(),
        default_category: [CategoryId(DEFAULT)],
    }
}

#[test]
fn test_bisa() {
    let mut v = vec![];
    let char_definitions = load();
    char_definitions.lookup_categories('々', &mut v);
    let category_ids: Vec<&str> = v
        .iter()
        .map(|&category_id| char_definitions.category_name(category_id))
        .collect();
    assert_eq!(category_ids, &["KANJI", "SYMBOL"]);
}

#[test]
fn test_jp_hyphen() {
    let mut v = vec![];
    let char_definitions = load();
    char_definitions.lookup_categories('ー', &mut v);
    let category_ids: Vec<&str> = v
        .iter()
        .map(|&category_id| char_definitions.category_name(category_id))
        .collect();
    assert_eq!(category_ids, &["KATAKANA"]);
}

#[test]
fn test_char_definitions() {
    let mut v = vec![];
    let char_definitions = load();
    {
        char_definitions.lookup_categories('あ', &mut v);
        assert_eq!(v.len(), 1);
        assert_eq!(char_definitions.category_name(v[0]), "HIRAGANA");
    }
    {
        char_definitions.lookup_categories('@', &mut v);
        assert_eq!(v.len(), 1);
        assert_eq!(char_definitions.category_name(v[0]), "SYMBOL");
    }
    {
        char_definitions.lookup_categories('一', &mut v);
        assert_eq!(v.len(), 2);
        assert_eq!(char_definitions.category_name(v[0]), "KANJI");
        assert_eq!(char_definitions.category_name(v[1]), "KANJINUMERIC");
    }
}

#[test]
fn uncovered_character_gets_the_default_category() {
    let mut v = vec![CategoryId(5)];
    let char_definitions = load();
    char_definitions.lookup_categories('\u{1F600}', &mut v);
    assert_eq!(v, vec![CategoryId(DEFAULT)]);
}

#[test]
fn overlapping_ranges_are_deduplicated_in_first_seen_order() {
    let mut v = vec![];
    let char_definitions = load();
    char_definitions.lookup_categories('二', &mut v);
    assert_eq!(v, vec![CategoryId(KANJI), CategoryId(KANJINUMERIC)]);
}

#[test]
fn definitions_and_names_are_looked_up_by_id() {
    let char_definitions = load();
    assert!(char_definitions.is_valid());
    assert_eq!(char_definitions.categories().len(), 11);
    let katakana = char_definitions.lookup_definition(CategoryId(KATAKANA));
    assert!(katakana.invoke && katakana.group);
    assert_eq!(katakana.length, 2);
    assert_eq!(char_definitions.category_name(CategoryId(ALPHA)), "ALPHA");
}

#[test]
fn out_of_range_category_makes_definitions_invalid() {
    let mut char_definitions = load();
    char_definitions.mapping.push((0x10, 0x10, vec![CategoryId(99)]));
    assert!(!char_definitions.is_valid());
}
