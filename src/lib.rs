//! Japanese morphological analysis: a word lattice built from a prefix
//! dictionary and unknown-word rules, and a shortest-path segmentation.
use vstd::prelude::*;
use vstd::string::StringSliceAdditionalSpecFns;

pub mod word_entry;
pub mod connection;
pub mod char_scan;
pub mod viterbi;
pub mod prefix_dict;
pub mod character_definition;
pub mod char_def_builder;
pub mod unknown_dictionary;
pub mod text_format;

pub use crate::word_entry::{WordEntry, WordId};
pub use crate::connection::ConnectionCostMatrix;
pub use crate::viterbi::{Node, NodeId, NodeType};
pub use crate::character_definition::CharacterDefinitions;
pub use crate::prefix_dict::PrefixDict;
pub use crate::unknown_dictionary::UnknownDictionary;

use crate::viterbi::{
    backtrace, best_path_offsets, is_token_cut, nodes_from, same_edge, lemma_edges_cost_ids, lemma_same_edges_keep, offsets_of, Lattice, LatticeView,
    EOS_ID,
};

verus! {

/// Failures while reading dictionary data.
#[derive(Debug)]
pub enum ParsingError {
    Encoding,
    IoError(String),
    ContentError(String),
}

/// Largest per-character length penalty that a search mode may carry.
pub const MAX_LENGTH_PENALTY: i32 = 0x10_0000;

/// Length penalties of search mode: they bias the segmentation against long
/// compound words.
#[derive(Clone, Debug)]
pub struct Penalty {
    kanji_penalty_length_threshold: usize,
    kanji_penalty_length_penalty: i32,
    other_penalty_length_threshold: usize,
    other_penalty_length_penalty: i32,
}

/// The penalty of a word of `n` characters, `kanji_only` when all of them are kanji.
pub open spec fn penalty_of(
    kanji_threshold: int,
    kanji_penalty: int,
    other_threshold: int,
    other_penalty: int,
    n: int,
    kanji_only: bool,
) -> int {
    if n <= kanji_threshold {
        0
    } else if kanji_only {
        (n - kanji_threshold) * kanji_penalty
    } else if n > other_threshold {
        (n - other_threshold) * other_penalty
    } else {
        0
    }
}

impl Penalty {
    pub closed spec fn wf(&self) -> bool {
        &&& -MAX_LENGTH_PENALTY <= self.kanji_penalty_length_penalty <= MAX_LENGTH_PENALTY
        &&& -MAX_LENGTH_PENALTY <= self.other_penalty_length_penalty <= MAX_LENGTH_PENALTY
    }

    /// The default penalties.
    pub closed spec fn default_spec() -> Penalty {
        Penalty {
            kanji_penalty_length_threshold: 2,
            kanji_penalty_length_penalty: 3000,
            other_penalty_length_threshold: 7,
            other_penalty_length_penalty: 1700,
        }
    }

    /// The penalty of a word of `n` characters.
    pub closed spec fn spec_penalty(&self, n: int, kanji_only: bool) -> int {
        penalty_of(
            self.kanji_penalty_length_threshold as int,
            self.kanji_penalty_length_penalty as int,
            self.other_penalty_length_threshold as int,
            self.other_penalty_length_penalty as int,
            n,
            kanji_only,
        )
    }

    /// Search-mode penalties with the given thresholds (in characters) and
    /// per-character penalties; `None` where a penalty exceeds
    /// `MAX_LENGTH_PENALTY` in magnitude, the bound that keeps path costs
    /// within 64 bits.
    pub fn new(
        kanji_threshold: usize,
        kanji_penalty: i32,
        other_threshold: usize,
        other_penalty: i32,
    ) -> (r: Option<Penalty>)
        ensures
            r is Some <==> (-MAX_LENGTH_PENALTY <= kanji_penalty <= MAX_LENGTH_PENALTY && -MAX_LENGTH_PENALTY
                <= other_penalty <= MAX_LENGTH_PENALTY),
            r matches Some(p) ==> p.wf() && forall|n: int, k: bool| #[trigger] p.spec_penalty(n, k)
                == penalty_of(kanji_threshold as int, kanji_penalty as int, other_threshold as int, other_penalty as int, n, k),
    {
        if -MAX_LENGTH_PENALTY <= kanji_penalty && kanji_penalty <= MAX_LENGTH_PENALTY && -MAX_LENGTH_PENALTY
            <= other_penalty && other_penalty <= MAX_LENGTH_PENALTY {
            Some(Penalty {
                kanji_penalty_length_threshold: kanji_threshold,
                kanji_penalty_length_penalty: kanji_penalty,
                other_penalty_length_threshold: other_threshold,
                other_penalty_length_penalty: other_penalty,
            })
        } else {
            None
        }
    }

    /// Whether the penalties are within `MAX_LENGTH_PENALTY` in magnitude.
    pub fn is_valid(&self) -> (r: bool)
        ensures
            r == self.wf(),
    {
        -MAX_LENGTH_PENALTY <= self.kanji_penalty_length_penalty && self.kanji_penalty_length_penalty
            <= MAX_LENGTH_PENALTY && -MAX_LENGTH_PENALTY <= self.other_penalty_length_penalty
            && self.other_penalty_length_penalty <= MAX_LENGTH_PENALTY
    }

    /// The penalty of the word that `node` stands for.
    pub fn penalty(&self, node: &Node) -> (r: i64)
        requires
            self.wf(),
        ensures
            r as int == self.spec_penalty(node.num_chars as int, node.kanji_only),
            -(node.num_chars as int * MAX_LENGTH_PENALTY) <= r <= node.num_chars as int * MAX_LENGTH_PENALTY,
    {
        let num_chars = node.num_chars as usize;
        if num_chars <= self.kanji_penalty_length_threshold {
            return 0;
        }
        if node.kanji_only {
            let d = (num_chars - self.kanji_penalty_length_threshold) as i64;
            assert(d * self.kanji_penalty_length_penalty <= num_chars * MAX_LENGTH_PENALTY) by (nonlinear_arith)
                requires 0 <= d <= num_chars, -MAX_LENGTH_PENALTY <= self.kanji_penalty_length_penalty <= MAX_LENGTH_PENALTY;
            assert(-(num_chars * MAX_LENGTH_PENALTY) <= d * self.kanji_penalty_length_penalty) by (nonlinear_arith)
                requires 0 <= d <= num_chars, -MAX_LENGTH_PENALTY <= self.kanji_penalty_length_penalty <= MAX_LENGTH_PENALTY;
            assert(num_chars * MAX_LENGTH_PENALTY <= 0xFFFF_FFFF * MAX_LENGTH_PENALTY) by (nonlinear_arith)
                requires num_chars <= 0xFFFF_FFFF;
            d * (self.kanji_penalty_length_penalty as i64)
        } else if num_chars > self.other_penalty_length_threshold {
            let d = (num_chars - self.other_penalty_length_threshold) as i64;
            assert(d * self.other_penalty_length_penalty <= num_chars * MAX_LENGTH_PENALTY) by (nonlinear_arith)
                requires 0 <= d <= num_chars, -MAX_LENGTH_PENALTY <= self.other_penalty_length_penalty <= MAX_LENGTH_PENALTY;
            assert(-(num_chars * MAX_LENGTH_PENALTY) <= d * self.other_penalty_length_penalty) by (nonlinear_arith)
                requires 0 <= d <= num_chars, -MAX_LENGTH_PENALTY <= self.other_penalty_length_penalty <= MAX_LENGTH_PENALTY;
            assert(num_chars * MAX_LENGTH_PENALTY <= 0xFFFF_FFFF * MAX_LENGTH_PENALTY) by (nonlinear_arith)
                requires num_chars <= 0xFFFF_FFFF;
            d * (self.other_penalty_length_penalty as i64)
        } else {
            0
        }
    }
}

impl Default for Penalty {
    fn default() -> (r: Penalty)
        ensures
            r == Penalty::default_spec(),
            r.wf(),
            forall|n: int, k: bool| #[trigger] r.spec_penalty(n, k) == penalty_of(2, 3000, 7, 1700, n, k),
    {
        Penalty {
            kanji_penalty_length_threshold: 2,
            kanji_penalty_length_penalty: 3000,
            other_penalty_length_threshold: 7,
            other_penalty_length_penalty: 1700,
        }
    }
}

/// How the segmentation is chosen: plain shortest path, or with the length
/// penalties of search mode.
#[derive(Debug, Clone)]
pub enum Mode {
    Normal,
    Search(Penalty),
}

impl Mode {
    pub open spec fn wf(&self) -> bool {
        match self {
            Mode::Normal => true,
            Mode::Search(p) => p.wf(),
        }
    }

    /// The penalty added to the cost of a word of `n` characters.
    pub open spec fn spec_penalty_cost(&self, n: int, kanji_only: bool) -> int {
        match self {
            Mode::Normal => 0,
            Mode::Search(p) => p.spec_penalty(n, kanji_only),
        }
    }

    pub fn is_valid(&self) -> (r: bool)
        ensures
            r == self.wf(),
    {
        match self {
            Mode::Normal => true,
            Mode::Search(p) => p.is_valid(),
        }
    }

    pub fn is_search(&self) -> (r: bool)
        ensures
            r == (self is Search),
    {
        match self {
            Mode::Normal => false,
            Mode::Search(_penalty) => true,
        }
    }

    pub fn penalty_cost(&self, node: &Node) -> (r: i64)
        requires
            self.wf(),
        ensures
            r as int == self.spec_penalty_cost(node.num_chars as int, node.kanji_only),
            -(node.num_chars as int * MAX_LENGTH_PENALTY) <= r <= node.num_chars as int * MAX_LENGTH_PENALTY,
    {
        match self {
            Mode::Normal => 0,
            Mode::Search(penalty) => penalty.penalty(node),
        }
    }
}

/// The bytes of `tokens`, one after the other.
pub open spec fn concat_bytes(tokens: Seq<&str>) -> Seq<u8>
    decreases tokens.len(),
{
    if tokens.len() == 0 {
        seq![]
    } else {
        concat_bytes(tokens.drop_last()) + tokens.last().spec_bytes()
    }
}

/// Every token holds at least one byte.
pub open spec fn all_nonempty(tokens: Seq<&str>) -> bool {
    forall|k: int| 0 <= k < tokens.len() ==> (#[trigger] tokens[k]).spec_bytes().len() > 0
}

/// A token of the analysis: its text and the id of its word details.
pub struct Token<'a> {
    pub text: &'a str,
    pub word_id: WordId,
}

/// The components make a tokenizer: the tables refer to nothing missing,
/// the penalties are in range, and every context id of both dictionaries is
/// inside the matrix.
pub open spec fn accepts(
    mode: Mode,
    dict: &PrefixDict,
    cost_matrix: ConnectionCostMatrix,
    char_definitions: &CharacterDefinitions,
    unknown_dictionary: &UnknownDictionary,
) -> bool {
    &&& cost_matrix.wf()
    &&& char_definitions.wf()
    &&& unknown_dictionary.wf()
    &&& mode.wf()
    &&& cost_matrix.forward() >= 1
    &&& cost_matrix.backward() >= 1
    &&& dict.cost_ids_below(cost_matrix.forward() as int)
    &&& dict.cost_ids_below(cost_matrix.backward() as int)
    &&& unknown_dictionary.cost_ids_below(cost_matrix.forward() as int)
    &&& unknown_dictionary.cost_ids_below(cost_matrix.backward() as int)
}

/// Segments Japanese text into words: the dictionaries, the cost model, and
/// a lattice and offset buffer reused from one text to the next.
pub struct Tokenizer {
    dict: PrefixDict,
    cost_matrix: ConnectionCostMatrix,
    lattice: Lattice,
    char_definitions: CharacterDefinitions,
    unknown_dictionary: UnknownDictionary,
    mode: Mode,
}

/// Whether `text` holds `。` or `、` (three bytes each) at byte `i`.
pub open spec fn is_split_mark_at(text: Seq<u8>, i: int) -> bool {
    &&& 0 <= i && i + 3 <= text.len()
    &&& text[i] == 0xE3 && text[i + 1] == 0x80
    &&& (text[i + 2] == 0x82 || text[i + 2] == 0x81)
}

/// The end of the first sentence of `t` from byte `i` on: just after the
/// first `。` or `、` that ends on a character boundary.
pub open spec fn split_from(t: Seq<u8>, i: int) -> Option<int>
    decreases t.len() - i,
{
    if i < 0 || i + 3 > t.len() {
        None
    } else if is_split_mark_at(t, i) && vstd::utf8::is_char_boundary(t, i + 3) {
        Some(i + 3)
    } else {
        split_from(t, i + 1)
    }
}

proof fn lemma_split_from_bounds(t: Seq<u8>, i: int)
    requires
        0 <= i,
    ensures
        split_from(t, i) matches Some(e) ==> i + 3 <= e <= t.len() && vstd::utf8::is_char_boundary(t, e),
    decreases t.len() - i,
{
    if i + 3 <= t.len() && !(is_split_mark_at(t, i) && vstd::utf8::is_char_boundary(t, i + 3)) {
        lemma_split_from_bounds(t, i + 1);
    }
}

/// The sentences of `t`: each up to and including a `。` or `、`, the last
/// one up to the end.
pub open spec fn pieces_of(t: Seq<u8>) -> Seq<Seq<u8>>
    decreases t.len(),
{
    match split_from(t, 0) {
        Some(e) => if 3 <= e <= t.len() {
            seq![t.subrange(0, e)] + pieces_of(t.subrange(e, t.len() as int))
        } else {
            seq![]
        },
        None => if t.len() == 0 {
            seq![]
        } else {
            seq![t]
        },
    }
}

/// The end of the first sentence of `text`.
fn find_split(text: &str) -> (r: Option<usize>)
    ensures
        r matches Some(e) ==> split_from(text.spec_bytes(), 0) == Some(e as int),
        r is None ==> split_from(text.spec_bytes(), 0) is None,
        r matches Some(e) ==> 3 <= e <= text.spec_bytes().len(),
{
    let b = text.as_bytes();
    let n = b.len();
    let mut i: usize = 0;
    while n >= 3 && i <= n - 3
        invariant
            b@ == text.spec_bytes(),
            n == b@.len(),
            split_from(b@, 0) == split_from(b@, i as int),
        decreases n - i,
    {
        if b[i] == 0xE3 && b[i + 1] == 0x80 && (b[i + 2] == 0x82 || b[i + 2] == 0x81) {
            if text.is_char_boundary(i + 3) {
                return Some(i + 3);
            }
        }
        i = i + 1;
    }
    None
}

/// The pieces of `t` cut at offsets `i` on, the current piece starting at
/// `consumed`; an offset that is not a character boundary of the rest is
/// passed over.
pub open spec fn cut_tokens(t: Seq<u8>, offs: Seq<(usize, u32)>, i: int, consumed: int) -> Seq<Seq<u8>>
    decreases offs.len() - i,
{
    if i < 0 || i >= offs.len() {
        seq![t.subrange(consumed, t.len() as int)]
    } else {
        let off = offs[i].0 as int;
        if vstd::utf8::is_char_boundary(t.subrange(consumed, t.len() as int), off - consumed) {
            seq![t.subrange(consumed, off)] + cut_tokens(t, offs, i + 1, off)
        } else {
            cut_tokens(t, offs, i + 1, consumed)
        }
    }
}

/// The tokens of a piece cut at its token offsets.
pub open spec fn tokens_of_piece(t: Seq<u8>, offs: Seq<(usize, u32)>) -> Seq<Seq<u8>> {
    if t.len() == 0 {
        seq![]
    } else {
        cut_tokens(t, offs, 1, 0)
    }
}

/// The tokens of each piece cut at its offsets, one piece after the other.
pub open spec fn flatten_tokens(pieces: Seq<Seq<u8>>, offs: Seq<Seq<(usize, u32)>>) -> Seq<Seq<u8>>
    decreases pieces.len(),
{
    if pieces.len() == 0 {
        seq![]
    } else {
        flatten_tokens(pieces.drop_last(), offs.drop_last()) + tokens_of_piece(pieces.last(), offs.last())
    }
}

/// The bytes of each token.
pub open spec fn token_bytes(tokens: Seq<&str>) -> Seq<Seq<u8>> {
    tokens.map_values(|s: &str| s.spec_bytes())
}

/// Appends to `tokens` the pieces of `text` cut at the given offsets. An
/// offset that is not a character boundary is passed over.
fn cut_at_offsets<'a>(text: &'a str, offsets: &Vec<(usize, u32)>, tokens: &mut Vec<&'a str>)
    requires
        text.spec_bytes().len() < 0xFFFF_FFFF,
        is_token_cut(offsets@, text.spec_bytes().len() as int),
    ensures
        final(tokens)@.len() >= old(tokens)@.len(),
        final(tokens)@.subrange(0, old(tokens)@.len() as int) == old(tokens)@,
        concat_bytes(final(tokens)@) == concat_bytes(old(tokens)@) + text.spec_bytes(),
        all_nonempty(old(tokens)@) ==> all_nonempty(final(tokens)@),
        token_bytes(final(tokens)@) == token_bytes(old(tokens)@) + tokens_of_piece(text.spec_bytes(), offsets@),
{
    let ghost t = text.spec_bytes();
    let ghost t0 = tokens@;
    let len = text.len();
    if len == 0 {
        assert(concat_bytes(old(tokens)@) + t =~= concat_bytes(old(tokens)@));
        assert(token_bytes(old(tokens)@) + tokens_of_piece(t, offsets@) =~= token_bytes(old(tokens)@));
        return;
    }
    let mut rest: &'a str = text;
    let mut consumed: usize = 0;
    let mut i: usize = 1;
    while i < offsets.len()
        invariant
            t == text.spec_bytes(),
            len == t.len(),
            len > 0,
            is_token_cut(offsets@, len as int),
            1 <= i <= offsets@.len(),
            consumed <= offsets@[i - 1].0,
            consumed < len,
            rest.spec_bytes() == t.subrange(consumed as int, len as int),
            tokens@.len() >= t0.len(),
            tokens@.subrange(0, t0.len() as int) == t0,
            concat_bytes(tokens@) == concat_bytes(t0) + t.subrange(0, consumed as int),
            all_nonempty(t0) ==> all_nonempty(tokens@),
            token_bytes(tokens@) + cut_tokens(t, offsets@, i as int, consumed as int) == token_bytes(t0) + cut_tokens(t, offsets@, 1, 0),
        decreases offsets@.len() - i,
    {
        let off = offsets[i].0;
        assert(offsets@[i as int - 1].0 < offsets@[i as int].0);
        assert(off < len);
        let cut = off - consumed;
        let boundary = rest.is_char_boundary(cut);
        proof {
            assert(rest.spec_bytes() == t.subrange(consumed as int, len as int));
        }
        if boundary {
            let (tok, r) = rest.split_at(cut);
            let ghost before = tokens@;
            tokens.push(tok);
            proof {
                assert(tok.spec_bytes() =~= t.subrange(consumed as int, off as int));
                assert(token_bytes(tokens@) =~= token_bytes(before).push(tok.spec_bytes()));
                let c1 = cut_tokens(t, offsets@, i as int + 1, off as int);
                assert(cut_tokens(t, offsets@, i as int, consumed as int) == seq![t.subrange(consumed as int, off as int)] + c1);
                assert(token_bytes(tokens@) + c1 =~= token_bytes(before) + cut_tokens(t, offsets@, i as int, consumed as int));
                assert(tokens@.drop_last() == before);
                assert(tokens@.last() == tok);
                assert(t.subrange(0, consumed as int) + t.subrange(consumed as int, off as int) =~= t.subrange(0, off as int));
                assert(tokens@.subrange(0, t0.len() as int) =~= before.subrange(0, t0.len() as int));
                if all_nonempty(t0) {
                    assert forall|k: int| 0 <= k < tokens@.len() implies (#[trigger] tokens@[k]).spec_bytes().len() > 0 by {
                        if k < before.len() {
                            assert(tokens@[k] == before[k]);
                        }
                    }
                }
            }
            rest = r;
            consumed = off;
        }
        i = i + 1;
    }
    let ghost before = tokens@;
    tokens.push(rest);
    proof {
        assert(token_bytes(tokens@) =~= token_bytes(before).push(rest.spec_bytes()));
        assert(cut_tokens(t, offsets@, i as int, consumed as int) == seq![t.subrange(consumed as int, len as int)]);
        assert(token_bytes(tokens@) =~= token_bytes(before) + cut_tokens(t, offsets@, i as int, consumed as int));
        assert(tokens@.drop_last() == before);
        assert(t.subrange(0, consumed as int) + t.subrange(consumed as int, len as int) =~= t);
        assert(tokens@.subrange(0, t0.len() as int) =~= before.subrange(0, t0.len() as int));
        if all_nonempty(t0) {
            assert forall|k: int| 0 <= k < tokens@.len() implies (#[trigger] tokens@[k]).spec_bytes().len() > 0 by {
                if k < before.len() {
                    assert(tokens@[k] == before[k]);
                }
            }
        }
    }
}

impl Tokenizer {
    pub closed spec fn wf(&self) -> bool {
        &&& self.char_definitions.wf()
        &&& self.unknown_dictionary.wf()
        &&& self.mode.wf()
        &&& self.cost_matrix.wf()
        &&& self.cost_matrix.forward() >= 1
        &&& self.cost_matrix.backward() >= 1
        &&& self.dict.cost_ids_below(self.cost_matrix.forward() as int)
        &&& self.dict.cost_ids_below(self.cost_matrix.backward() as int)
        &&& self.unknown_dictionary.cost_ids_below(self.cost_matrix.forward() as int)
        &&& self.unknown_dictionary.cost_ids_below(self.cost_matrix.backward() as int)
    }

    /// The lattice of the last text analysed.
    pub closed spec fn lattice_view(&self) -> LatticeView {
        self.lattice@
    }

    pub closed spec fn spec_mode(&self) -> Mode {
        self.mode
    }

    pub closed spec fn spec_dict(&self) -> &PrefixDict {
        &self.dict
    }

    pub closed spec fn spec_cost_matrix(&self) -> ConnectionCostMatrix {
        self.cost_matrix
    }

    pub closed spec fn spec_unknown_dictionary(&self) -> &UnknownDictionary {
        &self.unknown_dictionary
    }

    pub closed spec fn spec_char_definitions(&self) -> &CharacterDefinitions {
        &self.char_definitions
    }

    /// The tokenizer holds exactly these components.
    pub open spec fn holds(
        &self,
        mode: Mode,
        dict: &PrefixDict,
        cost_matrix: ConnectionCostMatrix,
        char_definitions: &CharacterDefinitions,
        unknown_dictionary: &UnknownDictionary,
    ) -> bool {
        &&& self.spec_mode() == mode
        &&& self.spec_dict() == dict
        &&& self.spec_cost_matrix() == cost_matrix
        &&& self.spec_char_definitions() == char_definitions
        &&& self.spec_unknown_dictionary() == unknown_dictionary
    }

    /// The two tokenizers have the same dictionaries, matrix and mode.
    pub open spec fn same_model(&self, other: &Tokenizer) -> bool {
        &&& self.spec_dict() == other.spec_dict()
        &&& self.spec_char_definitions() == other.spec_char_definitions()
        &&& self.spec_unknown_dictionary() == other.spec_unknown_dictionary()
        &&& self.spec_cost_matrix() == other.spec_cost_matrix()
        &&& self.spec_mode() == other.spec_mode()
    }

    /// `offs` are the token starts of the best path through `text`.
    pub open spec fn best_offsets(&self, text: Seq<u8>, offs: Seq<(usize, u32)>) -> bool {
        best_path_offsets(
            self.spec_dict(),
            self.spec_char_definitions(),
            self.spec_unknown_dictionary(),
            self.spec_cost_matrix(),
            self.spec_mode(),
            text,
            offs,
        )
    }

    /// `toks` are the tokens of the sentences of `t`, each sentence cut at the
    /// token starts of its best path.
    pub open spec fn segmented(&self, t: Seq<u8>, toks: Seq<Seq<u8>>) -> bool {
        exists|offs: Seq<Seq<(usize, u32)>>|
            offs.len() == pieces_of(t).len() && (forall|k: int|
                0 <= k < offs.len() ==> #[trigger] self.best_offsets(pieces_of(t)[k], offs[k])) && toks
                == flatten_tokens(pieces_of(t), offs)
    }

    /// A tokenizer over the given dictionaries and cost model. Fails where
    /// the category table or the unknown-word dictionary refers to missing
    /// items, where a search penalty is out of range, or where a context id
    /// of either dictionary is out of the matrix.
    pub fn new(
        mode: Mode,
        dict: PrefixDict,
        cost_matrix: ConnectionCostMatrix,
        char_definitions: CharacterDefinitions,
        unknown_dictionary: UnknownDictionary,
    ) -> (r: Result<Tokenizer, ParsingError>)
        ensures
            r is Ok <==> accepts(mode, &dict, cost_matrix, &char_definitions, &unknown_dictionary),
            r matches Ok(t) ==> t.wf() && t.holds(mode, &dict, cost_matrix, &char_definitions, &unknown_dictionary),
    {
        if !cost_matrix.is_valid() {
            return Err(ParsingError::ContentError(String::from_str("connection matrix is malformed")));
        }
        if !char_definitions.is_valid() {
            return Err(ParsingError::ContentError(String::from_str("character definitions refer to missing categories")));
        }
        if !unknown_dictionary.is_valid() {
            return Err(ParsingError::ContentError(String::from_str("unknown-word dictionary refers to missing entries")));
        }
        if !mode.is_valid() {
            return Err(ParsingError::ContentError(String::from_str("search penalty out of range")));
        }
        let fwd = cost_matrix.forward_size();
        let bwd = cost_matrix.backward_size();
        if fwd == 0 || bwd == 0 {
            return Err(ParsingError::ContentError(String::from_str("connection matrix is empty")));
        }
        let bound = if fwd < bwd { fwd } else { bwd };
        let dict_ok = dict.cost_ids_are_below(bound);
        let unk_ok = unknown_dictionary.cost_ids_are_below(bound);
        proof {
            if dict.cost_ids_below(fwd as int) && dict.cost_ids_below(bwd as int) {
                assert(dict.cost_ids_below(bound as int));
            }
            if unknown_dictionary.cost_ids_below(fwd as int) && unknown_dictionary.cost_ids_below(bwd as int) {
                assert(unknown_dictionary.cost_ids_below(bound as int));
            }
        }
        if !dict_ok || !unk_ok {
            return Err(ParsingError::ContentError(String::from_str("context id out of the connection matrix")));
        }
        Ok(Tokenizer {
            dict,
            cost_matrix,
            lattice: Lattice::new(),
            char_definitions,
            unknown_dictionary,
            mode,
        })
    }

    /// A tokenizer in search mode with the default penalties.
    pub fn for_search(
        dict: PrefixDict,
        cost_matrix: ConnectionCostMatrix,
        char_definitions: CharacterDefinitions,
        unknown_dictionary: UnknownDictionary,
    ) -> (r: Result<Tokenizer, ParsingError>)
        ensures
            r is Ok <==> accepts(Mode::Search(Penalty::default_spec()), &dict, cost_matrix, &char_definitions, &unknown_dictionary),
            r matches Ok(t) ==> t.wf() && t.holds(
                Mode::Search(Penalty::default_spec()),
                &dict,
                cost_matrix,
                &char_definitions,
                &unknown_dictionary,
            ),
    {
        Self::new(Mode::Search(Penalty::default()), dict, cost_matrix, char_definitions, unknown_dictionary)
    }

    /// A tokenizer in normal mode.
    pub fn normal(
        dict: PrefixDict,
        cost_matrix: ConnectionCostMatrix,
        char_definitions: CharacterDefinitions,
        unknown_dictionary: UnknownDictionary,
    ) -> (r: Result<Tokenizer, ParsingError>)
        ensures
            r is Ok <==> accepts(Mode::Normal, &dict, cost_matrix, &char_definitions, &unknown_dictionary),
            r matches Ok(t) ==> t.wf() && t.holds(Mode::Normal, &dict, cost_matrix, &char_definitions, &unknown_dictionary),
    {
        Self::new(Mode::Normal, dict, cost_matrix, char_definitions, unknown_dictionary)
    }

    /// The byte offset where each token of `text` begins, with the id of its
    /// word details: the best path through the lattice of `text`. Empty for
    /// the empty text; otherwise it begins with `0`.
    pub fn tokenize_offsets(&mut self, text: &str) -> (r: Vec<(usize, u32)>)
        requires
            old(self).wf(),
            text.spec_bytes().len() < 0xFFFF_FFFF,
        ensures
            final(self).wf(),
            final(self).same_model(old(self)),
            is_token_cut(r@, text.spec_bytes().len() as int),
            old(self).best_offsets(text.spec_bytes(), r@),
            text.spec_bytes().len() > 0 ==> {
                let v = final(self).lattice_view();
                &&& v.built_for(
                    final(self).spec_dict(),
                    final(self).spec_char_definitions(),
                    final(self).spec_unknown_dictionary(),
                    final(self).spec_cost_matrix(),
                    final(self).spec_mode(),
                    text.spec_bytes(),
                )
                &&& r@ == offsets_of(backtrace(v.nodes, EOS_ID as int, v.nodes.len() as nat), v.text_len())
            },
    {
        if text.len() == 0 {
            let r: Vec<(usize, u32)> = Vec::new();
            return r;
        }
        self.lattice.set_text(&self.dict, &self.char_definitions, &self.unknown_dictionary, text);
        proof {
            let fwd = self.cost_matrix.forward() as int;
            let bwd = self.cost_matrix.backward() as int;
            lemma_edges_cost_ids(self.lattice@, &self.dict, &self.unknown_dictionary, text.spec_bytes(), fwd);
            lemma_edges_cost_ids(self.lattice@, &self.dict, &self.unknown_dictionary, text.spec_bytes(), bwd);
        }
        let ghost before = self.lattice@;
        self.lattice.calculate_path_costs(&self.cost_matrix, &self.mode);
        proof {
            let w = self.lattice@;
            if w.nodes.len() < 0xFFFF_FFFF {
                let sn = nodes_from(&self.dict, &self.char_definitions, &self.unknown_dictionary, text.spec_bytes(), text.spec_bytes().len() as nat);
                assert forall|id: int| 0 <= id < w.nodes.len() implies same_edge(#[trigger] w.nodes[id], sn[id]) by {
                    assert(same_edge(w.nodes[id], before.nodes[id]));
                }
            }
        }
        proof {
            lemma_same_edges_keep(
                before,
                self.lattice@,
                &self.dict,
                &self.char_definitions,
                &self.unknown_dictionary,
                text.spec_bytes(),
            );
        }
        let r = self.lattice.tokens_offset();
        proof {
            let v = self.lattice@;
            assert(v.built_for(
                &self.dict,
                &self.char_definitions,
                &self.unknown_dictionary,
                self.cost_matrix,
                self.mode,
                text.spec_bytes(),
            ));
        }
        r
    }

    fn tokenize_without_split_str<'a>(&mut self, text: &'a str, tokens: &mut Vec<&'a str>)
        requires
            old(self).wf(),
            text.spec_bytes().len() < 0xFFFF_FFFF,
        ensures
            final(self).wf(),
            final(self).same_model(old(self)),
            concat_bytes(final(tokens)@) == concat_bytes(old(tokens)@) + text.spec_bytes(),
            all_nonempty(old(tokens)@) ==> all_nonempty(final(tokens)@),
            exists|offs: Seq<(usize, u32)>|
                #[trigger] old(self).best_offsets(text.spec_bytes(), offs) && token_bytes(final(tokens)@)
                    == token_bytes(old(tokens)@) + tokens_of_piece(text.spec_bytes(), offs),
    {
        let offsets = self.tokenize_offsets(text);
        cut_at_offsets(text, &offsets, tokens);
    }

    /// The tokens of `text`. The text is cut after each `。` and `、`, and
    /// each piece is segmented on its own. The tokens are non-empty and,
    /// put end to end, give back `text`.
    pub fn tokenize_str<'a>(&mut self, text: &'a str) -> (r: Vec<&'a str>)
        requires
            old(self).wf(),
            text.spec_bytes().len() < 0xFFFF_FFFF,
        ensures
            final(self).wf(),
            final(self).same_model(old(self)),
            concat_bytes(r@) == text.spec_bytes(),
            all_nonempty(r@),
            old(self).segmented(text.spec_bytes(), token_bytes(r@)),
    {
        let mut tokens: Vec<&'a str> = Vec::new();
        let mut rest: &'a str = text;
        let ghost t = text.spec_bytes();
        let ghost mut done: int = 0;
        let ghost mut done_pieces: Seq<Seq<u8>> = seq![];
        let ghost mut offs_acc: Seq<Seq<(usize, u32)>> = seq![];
        let mut more = true;
        proof {
            assert(token_bytes(tokens@) =~= Seq::<Seq<u8>>::empty());
            assert(t.subrange(0, t.len() as int) =~= t);
            assert(done_pieces + pieces_of(t) =~= pieces_of(t));
        }
        while more
            invariant
                self.wf(),
                self.same_model(old(self)),
                t == text.spec_bytes(),
                t.len() < 0xFFFF_FFFF,
                0 <= done <= t.len(),
                more ==> rest.spec_bytes() == t.subrange(done, t.len() as int),
                concat_bytes(tokens@) == t.subrange(0, done),
                all_nonempty(tokens@),
                !more ==> done == t.len(),
                more ==> pieces_of(t) == done_pieces + pieces_of(t.subrange(done, t.len() as int)),
                !more ==> pieces_of(t) == done_pieces,
                offs_acc.len() == done_pieces.len(),
                forall|k: int| 0 <= k < offs_acc.len() ==> #[trigger] old(self).best_offsets(done_pieces[k], offs_acc[k]),
                token_bytes(tokens@) == flatten_tokens(done_pieces, offs_acc),
            decreases t.len() - done, (if more { 1int } else { 0int }),
        {
            let ghost rb = rest.spec_bytes();
            match find_split(rest) {
                Some(split_idx) => {
                    proof {
                        lemma_split_from_bounds(rest.spec_bytes(), 0);
                    }
                    let (head, tail) = rest.split_at(split_idx);
                    let ghost before = tokens@;
                    let ghost pre = *self;
                    self.tokenize_without_split_str(head, &mut tokens);
                    proof {
                        let o = choose|o: Seq<(usize, u32)>| #[trigger] pre.best_offsets(head.spec_bytes(), o)
                            && token_bytes(tokens@) == token_bytes(before) + tokens_of_piece(head.spec_bytes(), o);
                        assert(old(self).best_offsets(head.spec_bytes(), o));
                        assert(head.spec_bytes() =~= t.subrange(done, done + split_idx));
                        assert(tail.spec_bytes() =~= t.subrange(done + split_idx, t.len() as int));
                        assert(t.subrange(0, done) + t.subrange(done, done + split_idx) =~= t.subrange(0, done + split_idx));
                        assert(pieces_of(rb) == seq![rb.subrange(0, split_idx as int)] + pieces_of(rb.subrange(split_idx as int, rb.len() as int)));
                        assert(rb.subrange(0, split_idx as int) =~= head.spec_bytes());
                        assert(rb.subrange(split_idx as int, rb.len() as int) =~= tail.spec_bytes());
                        let new_pieces = done_pieces.push(head.spec_bytes());
                        let new_offs = offs_acc.push(o);
                        assert(new_pieces.drop_last() =~= done_pieces);
                        assert(new_offs.drop_last() =~= offs_acc);
                        assert(flatten_tokens(new_pieces, new_offs) == flatten_tokens(done_pieces, offs_acc) + tokens_of_piece(head.spec_bytes(), o));
                        assert(done_pieces + pieces_of(rb) =~= new_pieces + pieces_of(tail.spec_bytes()));
                        assert forall|k: int| 0 <= k < new_offs.len() implies #[trigger] old(self).best_offsets(new_pieces[k], new_offs[k]) by {
                            if k < offs_acc.len() {
                                assert(new_pieces[k] == done_pieces[k] && new_offs[k] == offs_acc[k]);
                            }
                        }
                        done = done + split_idx;
                        done_pieces = new_pieces;
                        offs_acc = new_offs;
                    }
                    rest = tail;
                },
                None => {
                    if rest.len() > 0 {
                        let ghost before = tokens@;
                        let ghost pre = *self;
                        self.tokenize_without_split_str(rest, &mut tokens);
                        proof {
                            let o = choose|o: Seq<(usize, u32)>| #[trigger] pre.best_offsets(rb, o)
                                && token_bytes(tokens@) == token_bytes(before) + tokens_of_piece(rb, o);
                            assert(old(self).best_offsets(rb, o));
                            assert(pieces_of(rb) == seq![rb]);
                            let new_pieces = done_pieces.push(rb);
                            let new_offs = offs_acc.push(o);
                            assert(new_pieces.drop_last() =~= done_pieces);
                            assert(new_offs.drop_last() =~= offs_acc);
                            assert(flatten_tokens(new_pieces, new_offs) == flatten_tokens(done_pieces, offs_acc) + tokens_of_piece(rb, o));
                            assert(done_pieces + pieces_of(rb) =~= new_pieces);
                            assert forall|k: int| 0 <= k < new_offs.len() implies #[trigger] old(self).best_offsets(new_pieces[k], new_offs[k]) by {
                                if k < offs_acc.len() {
                                    assert(new_pieces[k] == done_pieces[k] && new_offs[k] == offs_acc[k]);
                                }
                            }
                            done_pieces = new_pieces;
                            offs_acc = new_offs;
                        }
                    } else {
                        proof {
                            assert(pieces_of(rb) == Seq::<Seq<u8>>::empty());
                            assert(done_pieces + pieces_of(rb) =~= done_pieces);
                        }
                    }
                    proof {
                        assert(t.subrange(0, done) + t.subrange(done, t.len() as int) =~= t);
                        done = t.len() as int;
                    }
                    more = false;
                },
            }
        }
        proof {
            assert(t.subrange(0, t.len() as int) =~= t);
            assert(offs_acc.len() == pieces_of(t).len() && (forall|k: int|
                0 <= k < offs_acc.len() ==> #[trigger] old(self).best_offsets(pieces_of(t)[k], offs_acc[k]))
                && token_bytes(tokens@) == flatten_tokens(pieces_of(t), offs_acc));
        }
        tokens
    }

    /// The tokens of `text`, each with the id of its word details; cut and
    /// segmented as by `tokenize_str`.
    pub fn tokenize<'a>(&mut self, text: &'a str) -> (r: Vec<Token<'a>>)
        requires
            old(self).wf(),
            text.spec_bytes().len() < 0xFFFF_FFFF,
        ensures
            final(self).wf(),
            final(self).same_model(old(self)),
            concat_bytes(r@.map_values(|t: Token<'a>| t.text)) == text.spec_bytes(),
            all_nonempty(r@.map_values(|t: Token<'a>| t.text)),
            old(self).segmented(text.spec_bytes(), token_bytes(r@.map_values(|t: Token<'a>| t.text))),
    {
        let mut out: Vec<Token<'a>> = Vec::new();
        let mut rest: &'a str = text;
        let ghost t = text.spec_bytes();
        let ghost mut done: int = 0;
        let ghost mut done_pieces: Seq<Seq<u8>> = seq![];
        let ghost mut offs_acc: Seq<Seq<(usize, u32)>> = seq![];
        let mut more = true;
        proof {
            assert(token_bytes(out@.map_values(|x: Token<'a>| x.text)) =~= Seq::<Seq<u8>>::empty());
            assert(t.subrange(0, t.len() as int) =~= t);
            assert(done_pieces + pieces_of(t) =~= pieces_of(t));
        }
        while more
            invariant
                self.wf(),
                self.same_model(old(self)),
                t == text.spec_bytes(),
                t.len() < 0xFFFF_FFFF,
                0 <= done <= t.len(),
                more ==> rest.spec_bytes() == t.subrange(done, t.len() as int),
                concat_bytes(out@.map_values(|x: Token<'a>| x.text)) == t.subrange(0, done),
                all_nonempty(out@.map_values(|x: Token<'a>| x.text)),
                !more ==> done == t.len(),
                more ==> pieces_of(t) == done_pieces + pieces_of(t.subrange(done, t.len() as int)),
                !more ==> pieces_of(t) == done_pieces,
                offs_acc.len() == done_pieces.len(),
                forall|k: int| 0 <= k < offs_acc.len() ==> #[trigger] old(self).best_offsets(done_pieces[k], offs_acc[k]),
                token_bytes(out@.map_values(|x: Token<'a>| x.text)) == flatten_tokens(done_pieces, offs_acc),
            decreases t.len() - done, (if more { 1int } else { 0int }),
        {
            let piece: &'a str;
            let ghost old_done = done;
            let ghost rb = rest.spec_bytes();
            match find_split(rest) {
                Some(split_idx) => {
                    proof {
                        lemma_split_from_bounds(rest.spec_bytes(), 0);
                    }
                    let (head, tail) = rest.split_at(split_idx);
                    piece = head;
                    rest = tail;
                    proof {
                        assert(head.spec_bytes() =~= t.subrange(done, done + split_idx));
                        assert(tail.spec_bytes() =~= t.subrange(done + split_idx, t.len() as int));
                        assert(pieces_of(rb) == seq![rb.subrange(0, split_idx as int)] + pieces_of(rb.subrange(split_idx as int, rb.len() as int)));
                        assert(rb.subrange(0, split_idx as int) =~= head.spec_bytes());
                        assert(rb.subrange(split_idx as int, rb.len() as int) =~= tail.spec_bytes());
                        done = done + split_idx;
                    }
                },
                None => {
                    piece = rest;
                    proof {
                        done = t.len() as int;
                        if rb.len() > 0 {
                            assert(pieces_of(rb) == seq![rb]);
                        } else {
                            assert(pieces_of(rb) == Seq::<Seq<u8>>::empty());
                        }
                    }
                    more = false;
                },
            }
            proof {
                assert(piece.spec_bytes() == t.subrange(old_done, done));
                assert(t.subrange(0, old_done) + t.subrange(old_done, done) =~= t.subrange(0, done));
            }
            if piece.len() > 0 {
                let ghost pre = *self;
                let offsets = self.tokenize_offsets(piece);
                let mut texts: Vec<&'a str> = Vec::new();
                proof {
                    assert(all_nonempty(texts@));
                    assert(concat_bytes(texts@) =~= seq![]);
                    assert(token_bytes(texts@) =~= Seq::<Seq<u8>>::empty());
                }
                cut_at_offsets(piece, &offsets, &mut texts);
                let mut k: usize = 0;
                let ghost prev = out@.map_values(|x: Token<'a>| x.text);
                while k < texts.len()
                    invariant
                        out@.map_values(|x: Token<'a>| x.text) == prev + texts@.subrange(0, k as int),
                        k <= texts@.len(),
                    decreases texts@.len() - k,
                {
                    let word_id = if k < offsets.len() { offsets[k].1 } else { word_entry::SYNTHETIC_WORD_ID };
                    let text_k = texts[k];
                    let ghost before = out@;
                    out.push(Token { text: text_k, word_id: WordId(word_id) });
                    proof {
                        assert(text_k == texts@[k as int]);
                        assert(out@ == before.push(Token { text: text_k, word_id: WordId(word_id) }));
                        assert(out@.map_values(|x: Token<'a>| x.text) =~= before.map_values(|x: Token<'a>| x.text).push(text_k));
                        assert(texts@.subrange(0, k as int + 1) =~= texts@.subrange(0, k as int).push(text_k));
                        assert(out@.map_values(|x: Token<'a>| x.text) =~= prev + texts@.subrange(0, k as int + 1));
                    }
                    k = k + 1;
                }
                proof {
                    assert(texts@.subrange(0, texts@.len() as int) =~= texts@);
                    lemma_concat_append(prev, texts@);
                    let all = prev + texts@;
                    assert forall|q: int| 0 <= q < all.len() implies (#[trigger] all[q]).spec_bytes().len() > 0 by {
                        if q >= prev.len() {
                            assert(all[q] == texts@[q - prev.len()]);
                        }
                    }
                    let p = piece.spec_bytes();
                    let o = offsets@;
                    assert(old(self).best_offsets(p, o));
                    assert(token_bytes(all) =~= token_bytes(prev) + token_bytes(texts@));
                    let new_pieces = done_pieces.push(p);
                    let new_offs = offs_acc.push(o);
                    assert(new_pieces.drop_last() =~= done_pieces);
                    assert(new_offs.drop_last() =~= offs_acc);
                    assert(flatten_tokens(new_pieces, new_offs) == flatten_tokens(done_pieces, offs_acc) + tokens_of_piece(p, o));
                    assert forall|q: int| 0 <= q < new_offs.len() implies #[trigger] old(self).best_offsets(new_pieces[q], new_offs[q]) by {
                        if q < offs_acc.len() {
                            assert(new_pieces[q] == done_pieces[q] && new_offs[q] == offs_acc[q]);
                        }
                    }
                    if more {
                        assert(done_pieces + pieces_of(rb) =~= new_pieces + pieces_of(t.subrange(done, t.len() as int)));
                    } else {
                        assert(done_pieces + pieces_of(rb) =~= new_pieces);
                    }
                    done_pieces = new_pieces;
                    offs_acc = new_offs;
                }
            } else {
                proof {
                    assert(t.subrange(old_done, done) =~= seq![]);
                    assert(t.subrange(0, done) =~= t.subrange(0, old_done));
                    assert(done_pieces + pieces_of(rb) =~= done_pieces);
                }
            }
        }
        proof {
            assert(t.subrange(0, t.len() as int) =~= t);
            let toks = token_bytes(out@.map_values(|x: Token<'a>| x.text));
            assert(offs_acc.len() == pieces_of(t).len() && (forall|k: int|
                0 <= k < offs_acc.len() ==> #[trigger] old(self).best_offsets(pieces_of(t)[k], offs_acc[k]))
                && toks == flatten_tokens(pieces_of(t), offs_acc));
        }
        out
    }
}

/// Concatenating two runs of tokens concatenates their bytes.
pub proof fn lemma_concat_append(a: Seq<&str>, b: Seq<&str>)
    ensures
        concat_bytes(a + b) == concat_bytes(a) + concat_bytes(b),
    decreases b.len(),
{
    if b.len() == 0 {
        assert(a + b =~= a);
        assert(concat_bytes(a) + concat_bytes(b) =~= concat_bytes(a));
    } else {
        lemma_concat_append(a, b.drop_last());
        assert((a + b).drop_last() =~= a + b.drop_last());
        assert((a + b).last() == b.last());
        assert(concat_bytes(a) + concat_bytes(b.drop_last()) + b.last().spec_bytes()
            =~= concat_bytes(a) + (concat_bytes(b.drop_last()) + b.last().spec_bytes()));
    }
}

} // verus!
