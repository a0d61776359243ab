use kuromoji::UnknownDictionary;
use kuromoji::character_definition::CategoryId;

const UNK_DEF: &str = "DEFAULT,5,5,4769,記号,一般,*,*,*,*,*
SPACE,9,9,8903,記号,空白,*,*,*,*,*
KANJI,1285,1285,11426,名詞,一般,*,*,*,*,*
KANJI,1283,1283,17290,名詞,サ変接続,*,*,*,*,*
KANJI,1293,1293,17611,名詞,固有名詞,地域,一般,*,*,*
SYMBOL,5,5,4769,記号,一般,*,*,*,*,*
ALPHA,1285,1285,13398,名詞,一般,*,*,*,*,*
KATAKANA,1285,1285,9461,名詞,一般,*,*,*,*,*
";

fn categories() -> Vec<String> {
    ["DEFAULT", "SPACE", "KANJI", "SYMBOL", "NUMERIC", "ALPHA", "HIRAGANA", "KATAKANA"]
        .iter()
        .map(|s| s.to_string())
        .collect()
}

#[test]
fn test_parse_unknown_dictionary() {
    let unknown_dict = UnknownDictionary::parse(&categories(), UNK_DEF).unwrap();
    assert_eq!(unknown_dict.lookup_word_ids(CategoryId(2)), &[2, 3, 4]);
}

#[test]
fn parsed_entries_carry_costs_per_category() {
    let unknown_dict = UnknownDictionary::parse(&categories(), UNK_DEF).unwrap();
    assert!(unknown_dict.is_valid());
    let kanji = unknown_dict.word_entries_for(CategoryId(2));
    let costs: Vec<(i16, u16)> = kanji.iter().map(|e| (e.word_cost, e.cost_id)).collect();
    assert_eq!(costs, vec![(11426, 1285), (17290, 1283), (17611, 1293)]);
    assert_eq!(unknown_dict.lookup_word_ids(CategoryId(4)), &[] as &[u32]);
    assert_eq!(unknown_dict.lookup_word_ids(CategoryId(7)), &[7]);
}

#[test]
fn crlf_lines_parse_too() {
    let text = "DEFAULT,5,5,-4769,記号,一般,*,*,*,*,*\r\nSPACE,9,9,8903,記号,空白,*,*,*,*,*\r\n";
    let unknown_dict = UnknownDictionary::parse(&categories(), text).unwrap();
    let default = unknown_dict.word_entries_for(CategoryId(0));
    assert_eq!(default[0].word_cost, -4769);
    assert_eq!(unknown_dict.lookup_word_ids(CategoryId(1)), &[1]);
}

#[test]
fn row_with_wrong_field_count_is_rejected() {
    assert!(UnknownDictionary::parse(&categories(), "DEFAULT,5,5,4769,記号\n").is_err());
}

#[test]
fn row_with_different_context_ids_is_rejected() {
    assert!(UnknownDictionary::parse(&categories(), "DEFAULT,5,6,4769,記号,一般,*,*,*,*,*\n").is_err());
}

#[test]
fn row_with_bad_number_is_rejected() {
    assert!(UnknownDictionary::parse(&categories(), "DEFAULT,x,5,4769,記号,一般,*,*,*,*,*\n").is_err());
    assert!(UnknownDictionary::parse(&categories(), "DEFAULT,5,5,40000,記号,一般,*,*,*,*,*\n").is_err());
}

#[test]
fn empty_definitions_give_empty_dictionary() {
    let unknown_dict = UnknownDictionary::parse(&categories(), "").unwrap();
    assert!(unknown_dict.word_entries_for(CategoryId(0)).is_empty());
}

#[test]
fn new_rejects_dangling_reference() {
    assert!(UnknownDictionary::new(vec![vec![0, 3]], vec![]).is_none());
}
