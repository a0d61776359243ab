//! Fallback entries for words that the dictionary does not cover, per
//! character category.
use vstd::prelude::*;

use crate::character_definition::CategoryId;
use crate::text_format::{
    bytes_equal, decimal_value, lines_of, parse_decimal, parse_unsigned, split_bytes, split_lines, split_on, unsigned_value,
};
use crate::word_entry::{WordEntry, SYNTHETIC_WORD_ID};
use crate::ParsingError;
use vstd::string::StringSliceAdditionalSpecFns;
use vstd::utf8::encode_utf8;

verus! {

/// One row of the unknown-word definitions: the category name, the left and
/// right context ids and the word cost.
#[derive(Debug)]
pub struct DictionaryEntry {
    pub surface: Vec<u8>,
    pub left_id: u32,
    pub right_id: u32,
    pub word_cost: i32,
}

/// A row of eleven comma-separated fields whose second to fourth fields are
/// the left id, the right id and the cost, within the ranges of their types.
pub open spec fn row_of(line: Seq<u8>) -> Option<(Seq<u8>, int, int, int)> {
    let f = split_on(line, 0x2C);
    if f.len() != 11 {
        None
    } else {
        match (unsigned_value(f[1]), unsigned_value(f[2]), decimal_value(f[3])) {
            (Some(l), Some(r), Some(c)) => {
                if 0 <= l <= 0xFFFF_FFFF && 0 <= r <= 0xFFFF_FFFF && -0x8000_0000 <= c <= 0x7FFF_FFFF {
                    Some((f[0], l, r, c))
                } else {
                    None
                }
            },
            _ => None,
        }
    }
}

/// A row that makes an entry: equal context ids that fit 16 bits and a
/// 16-bit cost.
pub open spec fn row_fits(row: (Seq<u8>, int, int, int)) -> bool {
    &&& row.1 == row.2
    &&& row.1 <= 0xFFFF
    &&& -0x8000 <= row.3 <= 0x7FFF
}

/// Every line of the text is a row that makes an entry.
pub open spec fn valid_unk_def(b: Seq<u8>) -> bool {
    &&& lines_of(b).len() <= 0xFFFF_FFFF
    &&& forall|i: int| 0 <= i < lines_of(b).len() ==> (#[trigger] row_of(lines_of(b)[i])) is Some
        && row_fits(row_of(lines_of(b)[i])->0)
}

/// The indices, among the first `n` surfaces, of those equal to `target`.
pub open spec fn matching_ids(surfaces: Seq<Seq<u8>>, target: Seq<u8>, n: nat) -> Seq<u32>
    decreases n,
{
    if n == 0 {
        seq![]
    } else {
        let a = matching_ids(surfaces, target, (n - 1) as nat);
        if surfaces[n - 1] == target {
            a.push((n - 1) as u32)
        } else {
            a
        }
    }
}

/// The surfaces of the rows of a valid text.
pub open spec fn surfaces_of(b: Seq<u8>) -> Seq<Seq<u8>> {
    lines_of(b).map_values(|l: Seq<u8>| (row_of(l)->0).0)
}

/// Reads one row from its fields.
pub fn parse_dictionary_entry(fields: &Vec<Vec<u8>>) -> (r: Result<DictionaryEntry, ParsingError>)
    ensures
        ({
            let f = fields@.map_values(|v: Vec<u8>| v@);
            let row = if f.len() != 11 {
                None
            } else {
                match (unsigned_value(f[1]), unsigned_value(f[2]), decimal_value(f[3])) {
                    (Some(l), Some(rr), Some(c)) => {
                        if 0 <= l <= 0xFFFF_FFFF && 0 <= rr <= 0xFFFF_FFFF && -0x8000_0000 <= c <= 0x7FFF_FFFF {
                            Some((f[0], l, rr, c))
                        } else {
                            None
                        }
                    },
                    _ => None,
                }
            };
            &&& r is Ok <==> row is Some
            &&& r matches Ok(e) ==> row == Some((e.surface@, e.left_id as int, e.right_id as int, e.word_cost as int))
        }),
{
    if fields.len() != 11 {
        return Err(ParsingError::ContentError(String::from_str("unknown-word row: expected 11 fields")));
    }
    let ghost f = fields@.map_values(|v: Vec<u8>| v@);
    proof {
        assert(f[1] == fields@[1]@ && f[2] == fields@[2]@ && f[3] == fields@[3]@ && f[0] == fields@[0]@);
    }
    let left = parse_unsigned(fields[1].as_slice());
    let right = parse_unsigned(fields[2].as_slice());
    let cost = parse_decimal(fields[3].as_slice());
    match (left, right, cost) {
        (Some(l), Some(r), Some(c)) => {
            if 0 <= l && l <= 0xFFFF_FFFF && 0 <= r && r <= 0xFFFF_FFFF && -0x8000_0000 <= c && c <= 0x7FFF_FFFF {
                Ok(DictionaryEntry {
                    surface: fields[0].clone(),
                    left_id: l as u32,
                    right_id: r as u32,
                    word_cost: c as i32,
                })
            } else {
                Err(ParsingError::ContentError(String::from_str("unknown-word row: number out of range")))
            }
        },
        _ => Err(ParsingError::ContentError(String::from_str("unknown-word row: malformed number"))),
    }
}

/// The entries of the rows; fails where a row's context ids differ or do
/// not fit 16 bits, or its cost does not.
pub fn make_costs_array(entries: &Vec<DictionaryEntry>) -> (r: Result<Vec<WordEntry>, ParsingError>)
    ensures
        r is Ok <==> forall|i: int| 0 <= i < entries@.len() ==> row_fits(
            ((#[trigger] entries@[i]).surface@, entries@[i].left_id as int, entries@[i].right_id as int, entries@[i].word_cost as int),
        ),
        r matches Ok(costs) ==> costs@.len() == entries@.len() && forall|i: int| 0 <= i < entries@.len() ==> {
            &&& (#[trigger] costs@[i]).word_id.0 == SYNTHETIC_WORD_ID
            &&& costs@[i].cost_id == entries@[i].left_id
            &&& costs@[i].word_cost == entries@[i].word_cost
        },
{
    let mut costs: Vec<WordEntry> = Vec::new();
    let mut i: usize = 0;
    while i < entries.len()
        invariant
            i <= entries@.len(),
            costs@.len() == i,
            forall|j: int| 0 <= j < i ==> row_fits(
                ((#[trigger] entries@[j]).surface@, entries@[j].left_id as int, entries@[j].right_id as int, entries@[j].word_cost as int),
            ),
            forall|j: int| 0 <= j < i ==> {
                &&& (#[trigger] costs@[j]).word_id.0 == SYNTHETIC_WORD_ID
                &&& costs@[j].cost_id == entries@[j].left_id
                &&& costs@[j].word_cost == entries@[j].word_cost
            },
        decreases entries@.len() - i,
    {
        let e = &entries[i];
        if e.left_id != e.right_id || e.left_id > 0xFFFF || e.word_cost < -0x8000 || e.word_cost > 0x7FFF {
            return Err(ParsingError::ContentError(String::from_str("unknown-word row: context ids or cost out of range")));
        }
        costs.push(WordEntry::synthetic(e.word_cost as i16, e.left_id as u16));
        i = i + 1;
    }
    Ok(costs)
}

/// The indices of the rows whose surface is `target_surface`.
pub fn get_entry_id_matching_surface(entries: &Vec<DictionaryEntry>, target_surface: &[u8]) -> (r: Vec<u32>)
    requires
        entries@.len() <= 0xFFFF_FFFF,
    ensures
        r@ == matching_ids(entries@.map_values(|e: DictionaryEntry| e.surface@), target_surface@, entries@.len() as nat),
{
    let ghost surfaces = entries@.map_values(|e: DictionaryEntry| e.surface@);
    let mut out: Vec<u32> = Vec::new();
    let mut i: usize = 0;
    while i < entries.len()
        invariant
            entries@.len() <= 0xFFFF_FFFF,
            surfaces == entries@.map_values(|e: DictionaryEntry| e.surface@),
            i <= entries@.len(),
            out@ == matching_ids(surfaces, target_surface@, i as nat),
        decreases entries@.len() - i,
    {
        let same = bytes_equal(entries[i].surface.as_slice(), target_surface);
        proof {
            assert(surfaces[i as int] == entries@[i as int].surface@);
        }
        if same {
            out.push(i as u32);
        }
        i = i + 1;
    }
    out
}

/// For each category name, the indices of the rows named after it.
pub fn make_category_references(categories: &[String], entries: &Vec<DictionaryEntry>) -> (r: Vec<Vec<u32>>)
    requires
        entries@.len() <= 0xFFFF_FFFF,
    ensures
        r@.len() == categories@.len(),
        forall|c: int| 0 <= c < categories@.len() ==> (#[trigger] r@[c])@ == matching_ids(
            entries@.map_values(|e: DictionaryEntry| e.surface@),
            encode_utf8(categories@[c]@),
            entries@.len() as nat,
        ),
{
    let mut out: Vec<Vec<u32>> = Vec::new();
    let mut c: usize = 0;
    while c < categories.len()
        invariant
            entries@.len() <= 0xFFFF_FFFF,
            c <= categories@.len(),
            out@.len() == c,
            forall|c2: int| 0 <= c2 < c ==> (#[trigger] out@[c2])@ == matching_ids(
                entries@.map_values(|e: DictionaryEntry| e.surface@),
                encode_utf8(categories@[c2]@),
                entries@.len() as nat,
            ),
        decreases categories@.len() - c,
    {
        let name = categories[c].as_str().as_bytes();
        out.push(get_entry_id_matching_surface(entries, name));
        c = c + 1;
    }
    out
}


/// For each category, the indices of its entries in `costs`.
pub struct UnknownDictionary {
    category_references: Vec<Vec<u32>>,
    costs: Vec<WordEntry>,
}

impl UnknownDictionary {
    pub closed spec fn references(&self) -> Seq<Seq<u32>> {
        self.category_references@.map_values(|v: Vec<u32>| v@)
    }

    pub closed spec fn entries(&self) -> Seq<WordEntry> {
        self.costs@
    }

    /// References point into `costs`, whose entries are synthetic.
    pub open spec fn wf(&self) -> bool {
        &&& forall|c: int, k: int| 0 <= c < self.references().len() && 0 <= k < self.references()[c].len()
            ==> #[trigger] self.references()[c][k] < self.entries().len()
        &&& forall|i: int| 0 <= i < self.entries().len() ==> (#[trigger] self.entries()[i]).word_id.0 == SYNTHETIC_WORD_ID
    }

    /// Every entry's context id is below `bound`.
    pub open spec fn cost_ids_below(&self, bound: int) -> bool {
        forall|i: int| 0 <= i < self.entries().len() ==> (#[trigger] self.entries()[i]).cost_id < bound
    }

    /// The entries of category `c`, in order.
    pub open spec fn entries_for(&self, c: int) -> Seq<WordEntry> {
        if 0 <= c < self.references().len() {
            self.references()[c].map_values(|i: u32| self.entries()[i as int])
        } else {
            seq![]
        }
    }

    /// A dictionary from its parts; `None` where a reference leaves `costs`.
    /// Entries lose their word ids: unknown words have no details.
    pub fn new(category_references: Vec<Vec<u32>>, costs: Vec<WordEntry>) -> (r: Option<UnknownDictionary>)
        ensures
            r is Some <==> forall|c: int, k: int| 0 <= c < category_references@.len() && 0 <= k
                < category_references@[c]@.len() ==> #[trigger] category_references@[c]@[k] < costs@.len(),
            r matches Some(d) ==> {
                &&& d.wf()
                &&& d.references() == category_references@.map_values(|v: Vec<u32>| v@)
                &&& d.entries().len() == costs@.len()
                &&& forall|i: int| 0 <= i < costs@.len() ==> (#[trigger] d.entries()[i]).word_cost == costs@[i].word_cost
                    && d.entries()[i].cost_id == costs@[i].cost_id
            },
    {
        let n = costs.len();
        let mut c: usize = 0;
        while c < category_references.len()
            invariant
                n == costs@.len(),
                c <= category_references@.len(),
                forall|c2: int, k: int| 0 <= c2 < c && 0 <= k < category_references@[c2]@.len()
                    ==> #[trigger] category_references@[c2]@[k] < n,
            decreases category_references@.len() - c,
        {
            let refs = &category_references[c];
            let mut k: usize = 0;
            while k < refs.len()
                invariant
                    n == costs@.len(),
                    c < category_references@.len(),
                    refs@ == category_references@[c as int]@,
                    k <= refs@.len(),
                    forall|c2: int, k2: int| 0 <= c2 < c && 0 <= k2 < category_references@[c2]@.len()
                        ==> #[trigger] category_references@[c2]@[k2] < n,
                    forall|k2: int| 0 <= k2 < k ==> #[trigger] refs@[k2] < n,
                decreases refs@.len() - k,
            {
                if refs[k] as usize >= n {
                    assert(category_references@[c as int]@[k as int] >= n);
                    return None;
                }
                k = k + 1;
            }
            c = c + 1;
        }
        let mut synthetic: Vec<WordEntry> = Vec::new();
        let mut i: usize = 0;
        while i < n
            invariant
                n == costs@.len(),
                i <= n,
                synthetic@.len() == i,
                forall|j: int| 0 <= j < i ==> (#[trigger] synthetic@[j]).word_cost == costs@[j].word_cost
                    && synthetic@[j].cost_id == costs@[j].cost_id && synthetic@[j].word_id.0 == SYNTHETIC_WORD_ID,
            decreases n - i,
        {
            synthetic.push(WordEntry::synthetic(costs[i].word_cost, costs[i].cost_id));
            i = i + 1;
        }
        let d = UnknownDictionary { category_references, costs: synthetic };
        Some(d)
    }

    /// Whether references point into `costs` and entries are synthetic.
    pub fn is_valid(&self) -> (r: bool)
        ensures
            r == self.wf(),
    {
        let n = self.costs.len();
        let mut c: usize = 0;
        while c < self.category_references.len()
            invariant
                n == self.entries().len(),
                c <= self.references().len(),
                self.references().len() == self.category_references@.len(),
                forall|c2: int, k: int| 0 <= c2 < c && 0 <= k < self.references()[c2].len()
                    ==> #[trigger] self.references()[c2][k] < n,
            decreases self.category_references@.len() - c,
        {
            let refs = &self.category_references[c];
            proof {
                assert(refs@ == self.references()[c as int]);
            }
            let mut k: usize = 0;
            while k < refs.len()
                invariant
                    n == self.entries().len(),
                    c < self.references().len(),
                    refs@ == self.references()[c as int],
                    k <= refs@.len(),
                    forall|c2: int, k2: int| 0 <= c2 < c && 0 <= k2 < self.references()[c2].len()
                        ==> #[trigger] self.references()[c2][k2] < n,
                    forall|k2: int| 0 <= k2 < k ==> #[trigger] refs@[k2] < n,
                decreases refs@.len() - k,
            {
                if refs[k] as usize >= n {
                    assert(self.references()[c as int][k as int] >= n);
                    return false;
                }
                k = k + 1;
            }
            c = c + 1;
        }
        let mut i: usize = 0;
        while i < n
            invariant
                n == self.entries().len(),
                i <= n,
                forall|c2: int, k: int| 0 <= c2 < self.references().len() && 0 <= k < self.references()[c2].len()
                    ==> #[trigger] self.references()[c2][k] < n,
                forall|j: int| 0 <= j < i ==> (#[trigger] self.entries()[j]).word_id.0 == SYNTHETIC_WORD_ID,
            decreases n - i,
        {
            if self.costs[i].word_id.0 != SYNTHETIC_WORD_ID {
                return false;
            }
            i = i + 1;
        }
        true
    }

    /// Whether every entry's context id is below `bound`.
    pub fn cost_ids_are_below(&self, bound: u32) -> (r: bool)
        ensures
            r == self.cost_ids_below(bound as int),
    {
        let mut i: usize = 0;
        while i < self.costs.len()
            invariant
                i <= self.entries().len(),
                forall|j: int| 0 <= j < i ==> (#[trigger] self.entries()[j]).cost_id < bound,
            decreases self.entries().len() - i,
        {
            if self.costs[i].cost_id as u32 >= bound {
                return false;
            }
            i = i + 1;
        }
        true
    }

    /// Reads the unknown-word definitions: one row per line, eleven
    /// comma-separated fields of which the first four are the category name,
    /// the left and right context ids and the cost. Each category gets the
    /// rows named after it, in order.
    pub fn parse(categories: &[String], unk_def: &str) -> (r: Result<UnknownDictionary, ParsingError>)
        ensures
            r is Ok <==> valid_unk_def(unk_def.spec_bytes()),
            r matches Ok(d) ==> {
                let rows = lines_of(unk_def.spec_bytes());
                &&& d.wf()
                &&& d.entries().len() == rows.len()
                &&& forall|i: int| 0 <= i < rows.len() ==> {
                    &&& (#[trigger] d.entries()[i]).cost_id == (row_of(rows[i])->0).1
                    &&& d.entries()[i].word_cost == (row_of(rows[i])->0).3
                }
                &&& d.references().len() == categories@.len()
                &&& forall|c: int| 0 <= c < categories@.len() ==> (#[trigger] d.references()[c]) == matching_ids(
                    surfaces_of(unk_def.spec_bytes()),
                    encode_utf8(categories@[c]@),
                    rows.len() as nat,
                )
            },
    {
        let ghost b = unk_def.spec_bytes();
        let lines = split_lines(unk_def.as_bytes());
        let ghost rows = lines_of(b);
        proof {
            assert(lines@.len() == rows.len());
        }
        if lines.len() > 0xFFFF_FFFF {
            return Err(ParsingError::ContentError(String::from_str("unknown-word definitions: too many rows")));
        }
        let mut entries: Vec<DictionaryEntry> = Vec::new();
        let mut i: usize = 0;
        while i < lines.len()
            invariant
                b == unk_def.spec_bytes(),
                rows == lines_of(b),
                lines@.map_values(|v: Vec<u8>| v@) == rows,
                rows.len() <= 0xFFFF_FFFF,
                i <= rows.len(),
                entries@.len() == i,
                forall|j: int| 0 <= j < i ==> (#[trigger] row_of(rows[j])) is Some,
                forall|j: int| 0 <= j < i ==> row_of(rows[j]) == Some(
                    ((#[trigger] entries@[j]).surface@, entries@[j].left_id as int, entries@[j].right_id as int, entries@[j].word_cost as int),
                ),
            decreases rows.len() - i,
        {
            let fields = split_bytes(lines[i].as_slice(), 0x2C);
            proof {
                assert(lines@[i as int]@ == rows[i as int]);
            }
            let parsed = parse_dictionary_entry(&fields);
            proof {
                assert(fields@.map_values(|v: Vec<u8>| v@) == split_on(rows[i as int], 0x2C));
            }
            match parsed {
                Ok(e) => {
                    entries.push(e);
                },
                Err(err) => {
                    proof {
                        assert(row_of(rows[i as int]) is None);
                    }
                    return Err(err);
                },
            }
            i = i + 1;
        }
        proof {
            assert(entries@.map_values(|e: DictionaryEntry| e.surface@) =~= surfaces_of(b));
        }
        let category_references = make_category_references(categories, &entries);
        let costs = match make_costs_array(&entries) {
            Ok(c) => c,
            Err(err) => {
                proof {
                    let k = choose|k: int| 0 <= k < entries@.len() && !row_fits(
                        ((#[trigger] entries@[k]).surface@, entries@[k].left_id as int, entries@[k].right_id as int, entries@[k].word_cost as int),
                    );
                    assert(row_of(rows[k]) is Some);
                }
                return Err(err);
            },
        };
        let d = UnknownDictionary { category_references, costs };
        proof {
            assert forall|c: int, k: int| 0 <= c < d.references().len() && 0 <= k < d.references()[c].len()
                implies #[trigger] d.references()[c][k] < d.entries().len() by {
                lemma_matching_ids_below(surfaces_of(b), encode_utf8(categories@[c]@), rows.len() as nat);
            }
            assert forall|i: int| 0 <= i < rows.len() implies (#[trigger] row_of(rows[i])) is Some
                && row_fits(row_of(rows[i])->0) by {
                assert(row_fits(((entries@[i]).surface@, entries@[i].left_id as int, entries@[i].right_id as int, entries@[i].word_cost as int)));
            }
        }
        Ok(d)
    }

    /// All entries, in the order that references point into.
    pub fn costs(&self) -> (r: &[WordEntry])
        ensures
            r@ == self.entries(),
    {
        self.costs.as_slice()
    }

    /// The number of categories the dictionary has references for.
    pub fn num_categories(&self) -> (r: usize)
        ensures
            r == self.references().len(),
    {
        self.category_references.len()
    }

    pub fn lookup_word_ids(&self, category_id: CategoryId) -> (r: &[u32])
        requires
            category_id.0 < self.references().len(),
        ensures
            r@ == self.references()[category_id.0 as int],
    {
        self.category_references[category_id.0].as_slice()
    }

    /// The entries of a category, copied out.
    pub fn word_entries_for(&self, category_id: CategoryId) -> (r: Vec<WordEntry>)
        requires
            self.wf(),
        ensures
            r@ == self.entries_for(category_id.0 as int),
    {
        let mut out: Vec<WordEntry> = Vec::new();
        if category_id.0 >= self.category_references.len() {
            assert(out@ =~= self.entries_for(category_id.0 as int));
            return out;
        }
        let ids = self.lookup_word_ids(category_id);
        let mut k: usize = 0;
        while k < ids.len()
            invariant
                self.wf(),
                category_id.0 < self.references().len(),
                ids@ == self.references()[category_id.0 as int],
                k <= ids@.len(),
                out@ =~= ids@.subrange(0, k as int).map_values(|i: u32| self.entries()[i as int]),
            decreases ids@.len() - k,
        {
            let id = ids[k];
            assert(self.references()[category_id.0 as int][k as int] < self.entries().len());
            out.push(self.costs[id as usize]);
            k = k + 1;
        }
        assert(ids@.subrange(0, ids@.len() as int) =~= ids@);
        out
    }
}

/// The indices that `matching_ids` lists are below `n`.
proof fn lemma_matching_ids_below(surfaces: Seq<Seq<u8>>, target: Seq<u8>, n: nat)
    requires
        n <= 0xFFFF_FFFF,
    ensures
        forall|k: int| 0 <= k < matching_ids(surfaces, target, n).len() ==> #[trigger] matching_ids(surfaces, target, n)[k] < n,
    decreases n,
{
    if n > 0 {
        lemma_matching_ids_below(surfaces, target, (n - 1) as nat);
        let a = matching_ids(surfaces, target, (n - 1) as nat);
        if surfaces[n - 1] == target {
            assert(((n - 1) as u32) as int == n - 1);
            assert forall|k: int| 0 <= k < a.len() + 1 implies #[trigger] a.push((n - 1) as u32)[k] < n by {
                if k < a.len() {
                    assert(a.push((n - 1) as u32)[k] == a[k]);
                }
            }
        }
    }
}

} // verus!
