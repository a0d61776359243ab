use kuromoji::char_def_builder::{parse_hex_codepoint, CharacterDefinitionsBuilder};
use kuromoji::character_definition::CategoryId;
use kuromoji::CharacterDefinitions;

const CHAR_DEF: &str = "#
# Japanese charcter category map
#
DEFAULT\t       0 1 0  # DEFAULT is a mandatory category!
SPACE\t       0 1 0
KANJI          0 0 2
SYMBOL         1 1 0
NUMERIC        1 1 0
ALPHA          1 1 0
HIRAGANA       0 1 2
KATAKANA       1 1 2
KANJINUMERIC   1 1 0
GREEK          1 1 0
CYRILLIC       1 1 0

# SPACE
0x0020 SPACE  # DO NOT REMOVE THIS LINE, 0x0020 is reserved for SPACE
0x0009 SPACE
0x000A SPACE

# ASCII
0x0021..0x002F SYMBOL
0x0030..0x0039 NUMERIC
0x003A..0x0040 SYMBOL
0x0041..0x005A ALPHA
0x005B..0x0060 SYMBOL
0x0061..0x007A ALPHA
0x007B..0x007E SYMBOL

# HIRAGANA
0x3041..0x309F  HIRAGANA

# KATAKANA
0x30A1..0x30FF  KATAKANA

# KANJI
0x3005          KANJI
0x4E00..0x9FA5  KANJI

# KANJI-NUMERIC
0x4E00 KANJINUMERIC KANJI
0x4E8C KANJINUMERIC KANJI

# SYMBOL
0x3000..0x303F  SYMBOL
";

fn build(text: &str) -> CharacterDefinitions {
    let mut builder = CharacterDefinitionsBuilder::new();
    builder.parse(text).unwrap();
    builder.build().unwrap()
}

fn names(defs: &CharacterDefinitions, c: char) -> Vec<String> {
    let mut v = vec![];
    defs.lookup_categories(c, &mut v);
    v.iter().map(|&id| defs.category_name(id).to_string()).collect()
}

#[test]
fn parsed_definitions_give_categories_in_first_seen_order() {
    let defs = build(CHAR_DEF);
    assert!(defs.is_valid());
    assert_eq!(names(&defs, '々'), vec!["KANJI", "SYMBOL"]);
    assert_eq!(names(&defs, 'ー'), vec!["KATAKANA"]);
    assert_eq!(names(&defs, 'あ'), vec!["HIRAGANA"]);
    assert_eq!(names(&defs, '@'), vec!["SYMBOL"]);
    assert_eq!(names(&defs, '一'), vec!["KANJI", "KANJINUMERIC"]);
    assert_eq!(names(&defs, 'é'), vec!["DEFAULT"]);
}

#[test]
fn parsed_rules_and_names() {
    let defs = build(CHAR_DEF);
    assert_eq!(defs.categories().len(), 11);
    assert_eq!(defs.category_name(CategoryId(7)), "KATAKANA");
    let katakana = defs.lookup_definition(CategoryId(7));
    assert!(katakana.invoke && katakana.group);
    assert_eq!(katakana.length, 2);
    let kanji = defs.lookup_definition(CategoryId(2));
    assert!(!kanji.invoke && !kanji.group);
    assert_eq!(defs.default_category, [CategoryId(0)]);
    assert_eq!(defs.mapping[0], (0x20, 0x20, vec![CategoryId(1)]));
}

#[test]
fn category_ids_are_given_in_order_of_first_use() {
    let mut builder = CharacterDefinitionsBuilder::new();
    assert_eq!(builder.category_id(b"DEFAULT"), CategoryId(0));
    assert_eq!(builder.category_id(b"KANJI"), CategoryId(1));
    assert_eq!(builder.category_id(b"DEFAULT"), CategoryId(0));
}

#[test]
fn hex_code_points() {
    assert_eq!(parse_hex_codepoint(b"0x3042").unwrap(), 0x3042);
    assert_eq!(parse_hex_codepoint(b"0x0020").unwrap(), 0x20);
    assert_eq!(parse_hex_codepoint(b"ff66").unwrap(), 0xFF66);
    assert!(parse_hex_codepoint(b"0xD800").is_err());
    assert!(parse_hex_codepoint(b"0x12345").is_err());
    assert!(parse_hex_codepoint(b"0xZZ").is_err());
    assert!(parse_hex_codepoint(b"0x").is_err());
}

#[test]
fn malformed_lines_are_rejected() {
    let mut builder = CharacterDefinitionsBuilder::new();
    assert!(builder.parse("KANJI 0 0\n").is_err());
    let mut builder = CharacterDefinitionsBuilder::new();
    assert!(builder.parse("0x0020..0x0030..0x0040 SPACE\n").is_err());
    let mut builder = CharacterDefinitionsBuilder::new();
    assert!(builder.parse("KANJI 0 x 2\n").is_err());
}

#[test]
fn missing_default_category_is_an_error() {
    let mut builder = CharacterDefinitionsBuilder::new();
    builder.parse("KANJI 0 0 2\n0x4E00..0x9FA5 KANJI\n").unwrap();
    assert!(builder.build().is_err());
}
