//! Reading the character definition file: category rules, code point
//! ranges with their categories, and the default category.
use encoding::{DecoderTrap, Encoding};
use vstd::prelude::*;
use vstd::string::{StrSliceExecFns, StringSliceAdditionalSpecFns};
use vstd::utf8::{encode_utf8, valid_utf8};

use crate::character_definition::{CategoryData, CategoryId, CharacterDefinitions};
use crate::text_format::{
    before_first, bytes_before, bytes_equal, copy_bytes, hex_u16, lines_of, parse_hex_u16, parse_unsigned, split_bytes, unsigned_value,
    split_lines, split_on, split_words, trim_bytes, trim_ws, words_of,
};
use crate::word_entry::{le_u16, u16_le_bytes};
use crate::ParsingError;

verus! {

/// Relies on encoding's `UTF_16LE.decode` with `DecoderTrap::Strict`: a lone
/// surrogate is an error, any other code unit decodes to its character.
#[verifier::external_body]
fn decode_utf16le(unit: [u8; 2]) -> (r: Option<String>)
    ensures
        r is Some <==> !(0xD800 <= le_u16(unit@[0], unit@[1]) <= 0xDFFF),
        r is Some ==> r.unwrap()@.len() == 1 && r.unwrap()@[0] as int == le_u16(unit@[0], unit@[1]),
{
    encoding::all::UTF_16LE.decode(&unit, DecoderTrap::Strict).ok()
}

/// Relies on std's `String::from_utf8`: the string of the bytes where they
/// are valid UTF-8.
#[verifier::external_body]
fn string_from_utf8(bytes: Vec<u8>) -> (r: Option<String>)
    ensures
        r is Some <==> valid_utf8(bytes@),
        r is Some ==> encode_utf8(r.unwrap()@) == bytes@,
{
    String::from_utf8(bytes).ok()
}

/// The builder's contents as sequences.
pub ghost struct BuilderView {
    pub definitions: Seq<CategoryData>,
    pub names: Seq<Seq<u8>>,
    pub ranges: Seq<(u32, u32, Seq<CategoryId>)>,
}

/// Index of `name` in `names` at or after `i`, or the length.
pub open spec fn find_name(names: Seq<Seq<u8>>, name: Seq<u8>, i: int) -> int
    decreases names.len() - i,
{
    if i < 0 || i >= names.len() {
        names.len() as int
    } else if names[i] == name {
        i
    } else {
        find_name(names, name, i + 1)
    }
}

/// The names with `name` added if it is new, and its index.
pub open spec fn with_name(names: Seq<Seq<u8>>, name: Seq<u8>) -> (Seq<Seq<u8>>, int) {
    let i = find_name(names, name, 0);
    if i < names.len() {
        (names, i)
    } else {
        (names.push(name), names.len() as int)
    }
}

/// The names after looking up the first `n` of `fields`, and their ids.
pub open spec fn ids_for(names: Seq<Seq<u8>>, fields: Seq<Seq<u8>>, n: nat) -> (Seq<Seq<u8>>, Seq<CategoryId>)
    decreases n,
{
    if n == 0 {
        (names, seq![])
    } else {
        let p = ids_for(names, fields, (n - 1) as nat);
        let (nm, id) = with_name(p.0, fields[n - 1]);
        (nm, p.1.push(CategoryId(id as usize)))
    }
}

/// The code point that a hexadecimal UTF-16 code unit stands for; none for a
/// surrogate.
pub open spec fn code_point_of(s: Seq<u8>) -> Option<u32> {
    match hex_u16(s) {
        Some(v) => if 0xD800 <= v <= 0xDFFF {
            None
        } else {
            Some(v as u32)
        },
        None => None,
    }
}

/// `lo` or `lo..hi`, both ends included.
pub open spec fn range_bounds(f: Seq<u8>) -> Option<(u32, u32)> {
    let b = split_on(f, 0x2E);
    if b.len() == 1 {
        match code_point_of(b[0]) {
            Some(c) => Some((c, c)),
            None => None,
        }
    } else if b.len() == 3 && b[1].len() == 0 {
        match (code_point_of(b[0]), code_point_of(b[2])) {
            (Some(l), Some(h)) => Some((l, h)),
            _ => None,
        }
    } else {
        None
    }
}

/// An unsigned 32-bit decimal field.
pub open spec fn u32_field(s: Seq<u8>) -> Option<int> {
    match unsigned_value(s) {
        Some(v) => if v <= 0xFFFF_FFFF {
            Some(v)
        } else {
            None
        },
        None => None,
    }
}

/// Whether a line's content starts with `0x`, and so gives a range.
pub open spec fn is_range_line(c: Seq<u8>) -> bool {
    c.len() >= 2 && c[0] == 0x30 && c[1] == 0x78
}

/// The builder after a range line.
pub open spec fn apply_range(st: BuilderView, c: Seq<u8>) -> Option<BuilderView> {
    let f = words_of(c);
    if f.len() == 0 {
        None
    } else {
        match range_bounds(f[0]) {
            Some((lo, hi)) => {
                let (names, ids) = ids_for(st.names, f.drop_first(), (f.len() - 1) as nat);
                Some(BuilderView { definitions: st.definitions, names, ranges: st.ranges.push((lo, hi, ids)) })
            },
            None => None,
        }
    }
}

/// The builder after a category line `NAME invoke group length`.
pub open spec fn apply_category(st: BuilderView, c: Seq<u8>) -> Option<BuilderView> {
    let f = words_of(c);
    if f.len() != 4 {
        None
    } else {
        match (u32_field(f[1]), u32_field(f[2]), u32_field(f[3])) {
            (Some(i), Some(g), Some(l)) => Some(
                BuilderView {
                    definitions: st.definitions.push(CategoryData { invoke: i == 1, group: g == 1, length: l as u32 }),
                    names: with_name(st.names, f[0]).0,
                    ranges: st.ranges,
                },
            ),
            _ => None,
        }
    }
}

/// The builder after a line: its content is what precedes `#`, trimmed.
pub open spec fn apply_line(st: BuilderView, line: Seq<u8>) -> Option<BuilderView> {
    let c = trim_ws(before_first(line, 0x23));
    if c.len() == 0 {
        Some(st)
    } else if is_range_line(c) {
        apply_range(st, c)
    } else {
        apply_category(st, c)
    }
}

/// The builder after the first `n` lines; none once a line is malformed.
pub open spec fn apply_lines(st: BuilderView, lines: Seq<Seq<u8>>, n: nat) -> Option<BuilderView>
    decreases n,
{
    if n == 0 {
        Some(st)
    } else {
        match apply_lines(st, lines, (n - 1) as nat) {
            Some(s) => apply_line(s, lines[n - 1]),
            None => None,
        }
    }
}

/// The code point of a hexadecimal UTF-16 code unit such as `0x3042`.
pub fn parse_hex_codepoint(s: &[u8]) -> (r: Result<u32, ParsingError>)
    ensures
        r is Ok <==> code_point_of(s@) is Some,
        r matches Ok(c) ==> code_point_of(s@) == Some(c),
{
    match parse_hex_u16(s) {
        Some(unit) => match ucs2_to_unicode(unit) {
            Some(c) => Ok(c),
            None => Err(ParsingError::ContentError(String::from_str("code point is a lone surrogate"))),
        },
        None => Err(ParsingError::ContentError(String::from_str("malformed hexadecimal code point"))),
    }
}

/// The code point that a UTF-16 code unit stands for; none for a surrogate.
fn ucs2_to_unicode(ucs2_codepoint: u16) -> (r: Option<u32>)
    ensures
        r is Some <==> !(0xD800 <= ucs2_codepoint <= 0xDFFF),
        r matches Some(c) ==> c == ucs2_codepoint as u32,
{
    let buf = u16_le_bytes(ucs2_codepoint);
    match decode_utf16le(buf) {
        Some(s) => {
            let c = s.as_str().get_char(0);
            Some(c as u32)
        },
        None => None,
    }
}

/// Collects category rules, names and code point ranges from the lines of
/// a character definition file.
pub struct CharacterDefinitionsBuilder {
    category_definition: Vec<CategoryData>,
    category_names: Vec<Vec<u8>>,
    char_ranges: Vec<(u32, u32, Vec<CategoryId>)>,
}

impl View for CharacterDefinitionsBuilder {
    type V = BuilderView;

    closed spec fn view(&self) -> BuilderView {
        BuilderView {
            definitions: self.category_definition@,
            names: self.category_names@.map_values(|v: Vec<u8>| v@),
            ranges: self.char_ranges@.map_values(|t: (u32, u32, Vec<CategoryId>)| (t.0, t.1, t.2@)),
        }
    }
}

impl CharacterDefinitionsBuilder {
    pub fn new() -> (r: CharacterDefinitionsBuilder)
        ensures
            r@.definitions.len() == 0,
            r@.names.len() == 0,
            r@.ranges.len() == 0,
    {
        CharacterDefinitionsBuilder {
            category_definition: Vec::new(),
            category_names: Vec::new(),
            char_ranges: Vec::new(),
        }
    }

    /// The id of a category name, given the next free id if it is new.
    pub fn category_id(&mut self, category_name: &[u8]) -> (r: CategoryId)
        ensures
            (final(self)@.names, r.0 as int) == with_name(old(self)@.names, category_name@),
            final(self)@.definitions == old(self)@.definitions,
            final(self)@.ranges == old(self)@.ranges,
    {
        let ghost names = self@.names;
        let n = self.category_names.len();
        let mut i: usize = 0;
        while i < n
            invariant
                n == self.category_names@.len(),
                names == self.category_names@.map_values(|v: Vec<u8>| v@),
                i <= n,
                find_name(names, category_name@, 0) == find_name(names, category_name@, i as int),
            decreases n - i,
        {
            if bytes_equal(self.category_names[i].as_slice(), category_name) {
                proof {
                    assert(names[i as int] == category_name@);
                }
                return CategoryId(i);
            }
            i = i + 1;
        }
        self.category_names.push(copy_bytes(category_name));
        proof {
            assert(self@.names =~= names.push(category_name@));
        }
        CategoryId(n)
    }

    /// Reads the lines of a character definition file.
    pub fn parse(&mut self, content: &str) -> (r: Result<(), ParsingError>)
        ensures
            r is Ok <==> apply_lines(old(self)@, lines_of(content.spec_bytes()), lines_of(content.spec_bytes()).len() as nat) is Some,
            r is Ok ==> Some(final(self)@) == apply_lines(
                old(self)@,
                lines_of(content.spec_bytes()),
                lines_of(content.spec_bytes()).len() as nat,
            ),
    {
        let ghost st0 = self@;
        let lines = split_lines(content.as_bytes());
        let ghost ls = lines_of(content.spec_bytes());
        let mut i: usize = 0;
        while i < lines.len()
            invariant
                st0 == old(self)@,
                ls == lines_of(content.spec_bytes()),
                lines@.map_values(|v: Vec<u8>| v@) == ls,
                i <= ls.len(),
                apply_lines(st0, ls, i as nat) == Some(self@),
            decreases ls.len() - i,
        {
            proof {
                assert(lines@[i as int]@ == ls[i as int]);
            }
            let line = trim_bytes(bytes_before(lines[i].as_slice(), 0x23).as_slice());
            if line.len() > 0 {
                let outcome = if line.len() >= 2 && line[0] == 0x30 && line[1] == 0x78 {
                    self.parse_range(line.as_slice())
                } else {
                    self.parse_category(line.as_slice())
                };
                match outcome {
                    Ok(()) => {},
                    Err(e) => {
                        proof {
                            lemma_apply_lines_stuck(st0, ls, (i + 1) as nat, ls.len() as nat);
                        }
                        return Err(e);
                    },
                }
            }
            i = i + 1;
        }
        Ok(())
    }

    /// Reads a range line: `lo` or `lo..hi`, then category names.
    fn parse_range(&mut self, line: &[u8]) -> (r: Result<(), ParsingError>)
        requires
            is_range_line(line@),
        ensures
            r is Ok <==> apply_range(old(self)@, line@) is Some,
            r is Ok ==> apply_range(old(self)@, line@) == Some(final(self)@),
            r is Err ==> final(self)@ == old(self)@,
    {
        let fields = split_words(line);
        let ghost f = words_of(line@);
        if fields.len() == 0 {
            return Err(ParsingError::ContentError(String::from_str("empty range line")));
        }
        let bounds = split_bytes(fields[0].as_slice(), 0x2E);
        proof {
            assert(fields@[0]@ == f[0]);
            assert(bounds@.map_values(|v: Vec<u8>| v@) == split_on(f[0], 0x2E));
        }
        let lower_bound: u32;
        let higher_bound: u32;
        if bounds.len() == 1 {
            proof {
                assert(bounds@[0]@ == split_on(f[0], 0x2E)[0]);
            }
            lower_bound = parse_hex_codepoint(bounds[0].as_slice())?;
            higher_bound = lower_bound;
        } else if bounds.len() == 3 && bounds[1].len() == 0 {
            proof {
                assert(bounds@[0]@ == split_on(f[0], 0x2E)[0]);
                assert(bounds@[1]@ == split_on(f[0], 0x2E)[1]);
                assert(bounds@[2]@ == split_on(f[0], 0x2E)[2]);
            }
            lower_bound = parse_hex_codepoint(bounds[0].as_slice())?;
            higher_bound = parse_hex_codepoint(bounds[2].as_slice())?;
        } else {
            proof {
                if bounds@.len() == 3 {
                    assert(bounds@[1]@ == split_on(f[0], 0x2E)[1]);
                }
            }
            return Err(ParsingError::ContentError(String::from_str("invalid range")));
        }
        let ghost names0 = self@.names;
        let ghost rest = f.drop_first();
        let mut category_ids: Vec<CategoryId> = Vec::new();
        let mut k: usize = 1;
        while k < fields.len()
            invariant
                f == fields@.map_values(|v: Vec<u8>| v@),
                rest == f.drop_first(),
                1 <= k <= f.len(),
                (self@.names, category_ids@) == ids_for(names0, rest, (k - 1) as nat),
                self@.definitions == old(self)@.definitions,
                self@.ranges == old(self)@.ranges,
                names0 == old(self)@.names,
            decreases f.len() - k,
        {
            proof {
                assert(fields@[k as int]@ == rest[k - 1]);
            }
            let id = self.category_id(fields[k].as_slice());
            category_ids.push(id);
            k = k + 1;
        }
        let ghost before = self@.ranges;
        self.char_ranges.push((lower_bound, higher_bound, category_ids));
        proof {
            assert(self@.ranges =~= before.push((lower_bound, higher_bound, category_ids@)));
        }
        Ok(())
    }

    /// Reads a category line: name, invoke, group and length.
    fn parse_category(&mut self, line: &[u8]) -> (r: Result<(), ParsingError>)
        requires
            !is_range_line(line@),
        ensures
            r is Ok <==> apply_category(old(self)@, line@) is Some,
            r is Ok ==> apply_category(old(self)@, line@) == Some(final(self)@),
            r is Err ==> final(self)@ == old(self)@,
    {
        let fields = split_words(line);
        let ghost f = words_of(line@);
        if fields.len() != 4 {
            return Err(ParsingError::ContentError(String::from_str("category line: expected 4 fields")));
        }
        proof {
            assert(fields@[0]@ == f[0] && fields@[1]@ == f[1] && fields@[2]@ == f[2] && fields@[3]@ == f[3]);
        }
        let invoke = parse_u32_field(fields[1].as_slice());
        let group = parse_u32_field(fields[2].as_slice());
        let length = parse_u32_field(fields[3].as_slice());
        match (invoke, group, length) {
            (Some(i), Some(g), Some(l)) => {
                let category_data = CategoryData { invoke: i == 1, group: g == 1, length: l };
                let ghost before = self@.definitions;
                self.category_definition.push(category_data);
                self.category_id(fields[0].as_slice());
                proof {
                    assert(self@.definitions =~= before.push(category_data));
                }
                Ok(())
            },
            _ => Err(ParsingError::ContentError(String::from_str("category line: malformed number"))),
        }
    }

    /// The character definitions: names made strings, and the category
    /// named `DEFAULT` as default. Fails where a name is not UTF-8 or no
    /// category is named `DEFAULT`.
    pub fn build(self) -> (r: Result<CharacterDefinitions, ParsingError>)
        ensures
            r is Ok <==> (forall|i: int| 0 <= i < self@.names.len() ==> valid_utf8(#[trigger] self@.names[i]))
                && find_name(self@.names, "DEFAULT".spec_bytes(), 0) < self@.names.len(),
            r matches Ok(d) ==> {
                &&& d.category_definitions@ == self@.definitions
                &&& d.category_names@.len() == self@.names.len()
                &&& forall|i: int| 0 <= i < self@.names.len() ==> encode_utf8(#[trigger] d.category_names@[i]@) == self@.names[i]
                &&& d.mapping_view() == self@.ranges
                &&& d.default_category[0].0 == find_name(self@.names, "DEFAULT".spec_bytes(), 0)
            },
    {
        let ghost v = self@;
        let mut category_names: Vec<String> = Vec::new();
        let n = self.category_names.len();
        let mut i: usize = 0;
        while i < n
            invariant
                v == self@,
                n == v.names.len(),
                i <= n,
                category_names@.len() == i,
                forall|j: int| 0 <= j < i ==> valid_utf8(#[trigger] v.names[j]),
                forall|j: int| 0 <= j < i ==> encode_utf8(#[trigger] category_names@[j]@) == v.names[j],
            decreases n - i,
        {
            proof {
                assert(self.category_names@[i as int]@ == v.names[i as int]);
            }
            match string_from_utf8(copy_bytes(self.category_names[i].as_slice())) {
                Some(s) => {
                    category_names.push(s);
                },
                None => {
                    return Err(ParsingError::Encoding);
                },
            }
            i = i + 1;
        }
        let default_name = "DEFAULT".as_bytes();
        let mut d: usize = 0;
        let mut found = false;
        while d < n && !found
            invariant
                v == self@,
                n == v.names.len(),
                d <= n,
                default_name@ == "DEFAULT".spec_bytes(),
                !found ==> find_name(v.names, default_name@, 0) == find_name(v.names, default_name@, d as int),
                found ==> d < n && find_name(v.names, default_name@, 0) == d,
            decreases n - d, (if found { 0int } else { 1int }),
        {
            proof {
                assert(self.category_names@[d as int]@ == v.names[d as int]);
            }
            if bytes_equal(self.category_names[d].as_slice(), default_name) {
                found = true;
            } else {
                d = d + 1;
            }
        }
        if !found {
            return Err(ParsingError::ContentError(String::from_str("no DEFAULT category")));
        }
        proof {
            assert(self.category_names@[d as int]@ == v.names[d as int]);
        }
        let r = CharacterDefinitions {
            category_definitions: self.category_definition,
            category_names,
            mapping: self.char_ranges,
            default_category: [CategoryId(d)],
        };
        proof {
            assert(r.mapping_view() =~= v.ranges);
        }
        Ok(r)
    }
}

/// Once a line is malformed, no later count of lines gives a builder.
proof fn lemma_apply_lines_stuck(st: BuilderView, lines: Seq<Seq<u8>>, m: nat, n: nat)
    requires
        apply_lines(st, lines, m) is None,
        m <= n,
    ensures
        apply_lines(st, lines, n) is None,
    decreases n,
{
    if n > m {
        lemma_apply_lines_stuck(st, lines, m, (n - 1) as nat);
    }
}

/// An unsigned 32-bit decimal field.
fn parse_u32_field(s: &[u8]) -> (r: Option<u32>)
    ensures
        r matches Some(v) ==> u32_field(s@) == Some(v as int),
        r is None ==> u32_field(s@) is None,
{
    match parse_unsigned(s) {
        Some(v) => if v <= 0xFFFF_FFFF {
            Some(v as u32)
        } else {
            None
        },
        None => None,
    }
}

} // verus!
