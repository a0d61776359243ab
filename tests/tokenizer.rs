use std::collections::BTreeMap;

use kuromoji::character_definition::{CategoryData, CategoryId};
use kuromoji::viterbi::Lattice;
use kuromoji::word_entry::SYNTHETIC_WORD_ID;
use kuromoji::{
    CharacterDefinitions, ConnectionCostMatrix, Mode, NodeId, Penalty, PrefixDict, Tokenizer,
    UnknownDictionary, WordEntry, WordId,
};

const SPACE: usize = 1;
const KANJI: usize = 2;
const SYMBOL: usize = 3;
const ALPHA: usize = 5;
const HIRAGANA: usize = 6;
const KATAKANA: usize = 7;

fn char_definitions() -> CharacterDefinitions {
    let rules = [
        ("DEFAULT", false, true, 0),
        ("SPACE", false, true, 0),
        ("KANJI", false, false, 2),
        ("SYMBOL", true, true, 0),
        ("NUMERIC", true, true, 0),
        ("ALPHA", true, true, 0),
        ("HIRAGANA", false, true, 2),
        ("KATAKANA", true, true, 2),
    ];
    let ranges: Vec<(u32, u32, Vec<usize>)> = vec![
        (0x0020, 0x0020, vec![SPACE]),
        (0x0021, 0x002F, vec![SYMBOL]),
        (0x003A, 0x0040, vec![SYMBOL]),
        (0x0041, 0x005A, vec![ALPHA]),
        (0x0061, 0x007A, vec![ALPHA]),
        (0x3041, 0x309F, vec![HIRAGANA]),
        (0x30A1, 0x30FF, vec![KATAKANA]),
        (0x4E00, 0x9FA5, vec![KANJI]),
        (0x3000, 0x303F, vec![SYMBOL]),
        (0x2000, 0x206F, vec![SYMBOL]),
        (0x2200, 0x22FF, vec![SYMBOL]),
    ];
    CharacterDefinitions {
        category_definitions: rules
            .iter()
            .map(|&(_, invoke, group, length)| CategoryData { invoke, group, length })
            .collect(),
        category_names: rules.iter().map(|r| r.0.to_string()).collect(),
        mapping: ranges
            .into_iter()
            .map(|(lo, hi, ids)| (lo, hi, ids.into_iter().map(CategoryId).collect()))
            .collect(),
        default_category: [CategoryId(0)],
    }
}

/// Every category falls back to one unknown-word entry of cost 5000.
fn unknown_dictionary() -> UnknownDictionary {
    let refs = (0..8).map(|_| vec![0u32]).collect();
    let costs = vec![WordEntry { word_id: WordId(SYNTHETIC_WORD_ID), word_cost: 5000, cost_id: 2 }];
    UnknownDictionary::new(refs, costs).unwrap()
}

/// A dictionary of `(surface, word_cost, cost_id)` rows.
fn prefix_dict(words: &[(&str, i16, u16)]) -> PrefixDict {
    let mut groups: BTreeMap<Vec<u8>, Vec<WordEntry>> = BTreeMap::new();
    for (i, &(surface, word_cost, cost_id)) in words.iter().enumerate() {
        groups
            .entry(surface.as_bytes().to_vec())
            .or_default()
            .push(WordEntry { word_id: WordId(i as u32), word_cost, cost_id });
    }
    let mut keys = Vec::new();
    let mut vals = Vec::new();
    let mut id = 0u64;
    for (key, entries) in &groups {
        let len = entries.len() as u64;
        keys.push((key.clone(), (id << 5) | len));
        id += len;
        for e in entries {
            e.serialize(&mut vals);
        }
    }
    PrefixDict::new(keys, vals).unwrap()
}

/// A 3 x 3 matrix over context ids 0 (text ends), 1 and 2 where joining two
/// words of the same id costs `same`.
fn matrix(same: i16) -> ConnectionCostMatrix {
    let cells: [i16; 9] = [0, 0, 0, 0, same, 0, 0, 0, same];
    let mut b = Vec::new();
    b.extend_from_slice(&3u16.to_le_bytes());
    b.extend_from_slice(&3u16.to_le_bytes());
    for c in cells {
        b.extend_from_slice(&c.to_le_bytes());
    }
    ConnectionCostMatrix::from_bytes(&b).unwrap()
}

fn tokenizer(mode: Mode, words: &[(&str, i16, u16)], same: i16) -> Tokenizer {
    Tokenizer::new(mode, prefix_dict(words), matrix(same), char_definitions(), unknown_dictionary()).unwrap()
}

fn sumomo_words() -> Vec<(&'static str, i16, u16)> {
    vec![("すもも", 0, 2), ("もも", 0, 2), ("も", 0, 1), ("の", 0, 1), ("うち", 0, 2)]
}

fn ore_words() -> Vec<(&'static str, i16, u16)> {
    vec![
        ("俺", 10, 2),
        ("は", 10, 1),
        ("まだ", 10, 2),
        ("本気", 10, 1),
        ("出し", 10, 2),
        ("て", 10, 1),
        ("ない", 10, 2),
        ("だけ", 10, 1),
        ("。", 10, 2),
    ]
}

fn kansai_words() -> Vec<(&'static str, i16, u16)> {
    vec![("関西国際空港", 0, 2), ("関西", 0, 2), ("国際", 0, 2), ("空港", 0, 2), ("国", 0, 2), ("ママ", 0, 2)]
}

#[test]
fn test_empty() {
    let mut tokenizer = tokenizer(Mode::Search(Penalty::default()), &sumomo_words(), 1000);
    let tokens = tokenizer.tokenize_offsets("");
    assert_eq!(tokens, vec![]);
    assert!(tokenizer.tokenize_str("").is_empty());
}

#[test]
fn test_space() {
    let mut tokenizer = tokenizer(Mode::Search(Penalty::default()), &sumomo_words(), 1000);
    let tokens: Vec<usize> = tokenizer.tokenize_offsets(" ").iter().map(|o| o.0).collect();
    assert_eq!(tokens, vec![0]);
}

#[test]
fn test_tokenize_sumomomomo() {
    let mut tokenizer = tokenizer(Mode::Search(Penalty::default()), &sumomo_words(), 1000);
    let tokens: Vec<&str> = tokenizer.tokenize_str("すもももももももものうち");
    assert_eq!(tokens, vec!["すもも", "も", "もも", "も", "もも", "の", "うち"]);
}

#[test]
fn test_tokenize() {
    let mut tokenizer = tokenizer(Mode::Search(Penalty::default()), &ore_words(), 0);
    let tokens: Vec<usize> =
        tokenizer.tokenize_offsets("俺はまだ本気出してないだけ。").iter().map(|o| o.0).collect();
    assert_eq!(tokens, vec![0, 3, 6, 12, 18, 24, 27, 33, 39]);
}

#[test]
fn test_tokenize_search_mode() {
    let mut tokenizer = tokenizer(Mode::Search(Penalty::default()), &kansai_words(), 100);
    let tokens: Vec<&str> = tokenizer.tokenize_str("関西国際空港");
    assert_eq!(tokens, vec!["関西", "国際", "空港"]);
}

#[test]
fn normal_mode_keeps_the_compound() {
    let mut tokenizer = tokenizer(Mode::Normal, &kansai_words(), 100);
    let tokens: Vec<&str> = tokenizer.tokenize_str("関西国際空港");
    assert_eq!(tokens, vec!["関西国際空港"]);
}

#[test]
fn test_tokenize_junk() {
    let mut tokenizer = tokenizer(Mode::Search(Penalty::default()), &kansai_words(), 0);
    let tokens: Vec<&str> = tokenizer.tokenize_str("関西国werwerママママ空港");
    assert_eq!(tokens, vec!["関西", "国", "werwer", "ママ", "ママ", "空港"]);
}

#[test]
fn sentences_are_cut_after_punctuation() {
    let mut tokenizer = tokenizer(Mode::Normal, &ore_words(), 0);
    let tokens: Vec<&str> = tokenizer.tokenize_str("俺は。まだ、本気");
    assert_eq!(tokens, vec!["俺", "は", "。", "まだ", "、", "本気"]);
    let joined: String = tokens.concat();
    assert_eq!(joined, "俺は。まだ、本気");
}

#[test]
fn tokens_carry_word_ids() {
    // A word's id is the index of its record: keys are stored in byte order.
    let mut keys: Vec<&str> = ore_words().iter().map(|w| w.0).collect();
    keys.sort();
    let id_of = |s: &str| WordId(keys.iter().position(|k| *k == s).unwrap() as u32);
    let mut tokenizer = tokenizer(Mode::Normal, &ore_words(), 0);
    let tokens = tokenizer.tokenize("俺は");
    let pairs: Vec<(&str, WordId)> = tokens.iter().map(|t| (t.text, t.word_id)).collect();
    assert_eq!(pairs, vec![("俺", id_of("俺")), ("は", id_of("は"))]);
}

#[test]
fn unknown_text_still_covers_the_input() {
    let mut tokenizer = tokenizer(Mode::Normal, &sumomo_words(), 0);
    let text = "xyz 123 ωψ";
    let tokens = tokenizer.tokenize_str(text);
    assert_eq!(tokens.concat(), text);
    assert!(tokens.iter().all(|t| !t.is_empty()));
}

#[test]
fn prefix_yields_keys_in_length_order() {
    let dict = prefix_dict(&[("aaa", 0, 1), ("aaa", 0, 2), ("aaab", 0, 3), ("b", 0, 4)]);
    let found: Vec<(usize, u16)> = dict.prefix(b"aaabc").iter().map(|&(n, e)| (n, e.cost_id)).collect();
    assert_eq!(found, vec![(3, 1), (3, 2), (4, 3)]);
    let found: Vec<(usize, u16)> = dict.prefix(b"aaac").iter().map(|&(n, e)| (n, e.cost_id)).collect();
    assert_eq!(found, vec![(3, 1), (3, 2)]);
    assert!(dict.prefix(b"c").is_empty());
    assert!(dict.prefix(b"").is_empty());
}

#[test]
fn prefix_stops_only_at_character_boundaries() {
    // "あ" is E3 81 82: a key made of its first two bytes never matches.
    let dict = prefix_dict(&[("あ", 0, 1)]);
    assert_eq!(dict.prefix("あい".as_bytes()).len(), 1);
    let mut vals = Vec::new();
    WordEntry { word_id: WordId(0), word_cost: 0, cost_id: 1 }.serialize(&mut vals);
    let dict = PrefixDict::new(vec![(vec![0xE3u8, 0x81], 1)], vals).unwrap();
    assert!(dict.prefix("あ".as_bytes()).is_empty());
}

#[test]
fn penalty_follows_lengths() {
    let p = Penalty::default();
    let node = |num_chars: u32, kanji_only: bool| kuromoji::Node {
        node_type: kuromoji::NodeType::Known,
        word_entry: WordEntry { word_id: WordId(0), word_cost: 0, cost_id: 0 },
        path_cost: 0,
        left_node: None,
        start_index: 0,
        stop_index: num_chars * 3,
        num_chars,
        kanji_only,
    };
    assert_eq!(p.penalty(&node(2, true)), 0);
    assert_eq!(p.penalty(&node(6, true)), 12000);
    assert_eq!(p.penalty(&node(5, false)), 0);
    assert_eq!(p.penalty(&node(9, false)), 3400);
    assert_eq!(Mode::Normal.penalty_cost(&node(9, true)), 0);
    assert!(Mode::Search(Penalty::default()).is_search());
    assert!(!Mode::Normal.is_search());
    assert!(Penalty::new(2, 2_000_000, 7, 1700).is_none());
    assert_eq!(Penalty::new(2, -10, 7, 1700).unwrap().penalty(&node(4, true)), -20);
    assert_eq!(Penalty::new(1, 10, 3, 20).unwrap().penalty(&node(5, false)), 40);
}

#[test]
fn normal_path_cost_is_the_sum_along_the_path() {
    let dict = prefix_dict(&ore_words());
    let defs = char_definitions();
    let unk = unknown_dictionary();
    let m = matrix(7);
    let mut lattice = Lattice::new();
    lattice.set_text(&dict, &defs, &unk, "俺はまだ");
    lattice.calculate_path_costs(&m, &Mode::Normal);
    // 俺(2) は(1) まだ(2): three words of cost 10, no joins of equal ids.
    assert_eq!(lattice.node(NodeId(1)).path_cost, 30);
    let offsets: Vec<usize> = lattice.tokens_offset().iter().map(|o| o.0).collect();
    assert_eq!(offsets, vec![0, 3, 6]);
}

#[test]
fn tokenizer_rejects_context_ids_outside_the_matrix() {
    let dict = prefix_dict(&[("a", 0, 9)]);
    let r = Tokenizer::new(Mode::Normal, dict, matrix(0), char_definitions(), unknown_dictionary());
    assert!(r.is_err());
}

#[test]
fn normal_and_search_constructors() {
    assert!(Tokenizer::normal(prefix_dict(&sumomo_words()), matrix(0), char_definitions(), unknown_dictionary()).is_ok());
    assert!(Tokenizer::for_search(prefix_dict(&sumomo_words()), matrix(0), char_definitions(), unknown_dictionary()).is_ok());
}

/// Words of the sentences below, each of cost 100.
fn sentence_words() -> Vec<(&'static str, i16, u16)> {
    [
        "御意", "。", "、", "でも", "喜び", "後で", "月", "満々", "本", "項", "で", "解説", "する", "地方",
        "病", "と", "は", "山梨", "県", "における", "日本", "住", "血", "吸", "虫", "症", "の", "呼称", "あり",
        "長い", "間", "その", "原因", "が", "明らか", "に", "なら", "ず", "住民", "を", "苦しめ", "た", "感染",
        "ある", "下北沢", "下北",
    ]
    .iter()
    .map(|w| (*w, 100, 1))
    .collect()
}

fn normal() -> Tokenizer {
    tokenizer(Mode::Normal, &sentence_words(), 0)
}

#[test]
fn test_gyoi() {
    let mut tokenizer = normal();
    let tokens: Vec<&str> = tokenizer.tokenize_str("御意。 御意〜。");
    assert_eq!(tokens, vec!["御意", "。", " ", "御意", "〜。"]);
}

#[test]
fn test_demoyorokobi() {
    let mut tokenizer = normal();
    let tokens: Vec<&str> = tokenizer.tokenize_str("〜でも喜び");
    assert_eq!(tokens, vec!["〜", "でも", "喜び"]);
}

#[test]
fn test_mukigen_normal2() {
    let mut tokenizer = normal();
    let tokens: Vec<&str> = tokenizer.tokenize_str("—でも");
    assert_eq!(tokens, vec!["—", "でも"]);
}

#[test]
fn test_atodedenwa() {
    let mut tokenizer = normal();
    let tokens: Vec<&str> = tokenizer.tokenize_str("−後で");
    assert_eq!(tokens, vec!["−", "後で"]);
}

#[test]
fn test_ikkagetsu() {
    let mut tokenizer = normal();
    let tokens: Vec<&str> = tokenizer.tokenize_str("ーヶ月");
    assert_eq!(tokens, vec!["ーヶ", "月"]);
}

#[test]
fn test_demo() {
    let mut tokenizer = normal();
    let tokens: Vec<&str> = tokenizer.tokenize_str("――!!?");
    assert_eq!(tokens, vec!["――!!?"]);
}

#[test]
fn test_kaikeishi() {
    let mut tokenizer = normal();
    let tokens: Vec<&str> = tokenizer.tokenize_str("ジム・コガン");
    assert_eq!(tokens, vec!["ジム・コガン"]);
}

#[test]
fn test_bruce() {
    let mut tokenizer = normal();
    let tokens: Vec<&str> = tokenizer.tokenize_str("ブルース・モラン");
    assert_eq!(tokens, vec!["ブルース・モラン"]);
}

#[test]
fn test_tokenize_real() {
    let mut tokenizer = normal();
    let tokens: Vec<&str> = tokenizer.tokenize_str(
        "本項で解説する地方病とは、山梨県における日本住血吸虫症の呼称であり、\
        長い間その原因が明らかにならず住民を苦しめた感染症である。");
    assert_eq!(tokens, vec!["本", "項", "で", "解説", "する", "地方",
                            "病", "と", "は", "、", "山梨", "県", "における",
                            "日本", "住", "血", "吸", "虫", "症", "の",
                            "呼称", "で", "あり", "、", "長い", "間", "その", "原因", "が", "明らか", "に", "なら", "ず", "住民", "を", "苦しめ", "た", "感染", "症", "で", "ある", "。"]);
}

#[test]
fn test_hitobito() {
    let mut tokenizer = normal();
    let tokens: Vec<&str> = tokenizer.tokenize_str("満々!");
    assert_eq!(tokens, &["満々", "!"]);
}

#[test]
fn test_fst_prefix() {
    let prefix_dict = prefix_dict(&sentence_words());
    let found: Vec<usize> = prefix_dict.prefix("下北沢".as_bytes()).iter().map(|&(a, _)| a).collect();
    for (a, word_entry) in prefix_dict.prefix("下北沢".as_bytes()) {
        println!("{} {:?}", a, word_entry)
    }
    assert_eq!(found, vec![6, 9]);
}

#[test]
fn malformed_dictionary_is_rejected() {
    let mut vals = Vec::new();
    WordEntry { word_id: WordId(0), word_cost: 0, cost_id: 1 }.serialize(&mut vals);
    // keys out of order
    assert!(PrefixDict::new(vec![(b"b".to_vec(), 1), (b"a".to_vec(), 1)], vals.clone()).is_err());
    // the same key twice
    assert!(PrefixDict::new(vec![(b"a".to_vec(), 1), (b"a".to_vec(), 1)], vals.clone()).is_err());
    // a run of length 0
    assert!(PrefixDict::new(vec![(b"a".to_vec(), 0)], vals.clone()).is_err());
    // a run past the blob
    assert!(PrefixDict::new(vec![(b"a".to_vec(), (1 << 5) | 1)], vals.clone()).is_err());
    assert!(PrefixDict::new(vec![(b"a".to_vec(), 1)], vals).is_ok());
}

#[test]
fn node_mut_changes_one_node() {
    let dict = prefix_dict(&ore_words());
    let defs = char_definitions();
    let unk = unknown_dictionary();
    let mut lattice = Lattice::new();
    lattice.set_text(&dict, &defs, &unk, "俺は");
    lattice.node_mut(NodeId(1)).path_cost = 77;
    assert_eq!(lattice.node(NodeId(1)).path_cost, 77);
    assert_eq!(lattice.node(NodeId(0)).path_cost, 0);
}
