//! Scanning text for unknown words: characters, their categories, and the
//! spans that unknown words cover.
use vstd::prelude::*;
use vstd::string::StringSliceAdditionalSpecFns;
use vstd::utf8::encode_utf8;

use crate::character_definition::{CategoryId, CharacterDefinitions};
use crate::text_format::bytes_equal;

verus! {

/// Width in bytes of a character whose encoding starts with `b`.
pub open spec fn utf8_width(b: u8) -> int {
    if b < 0xC0 {
        1
    } else if b < 0xE0 {
        2
    } else if b < 0xF0 {
        3
    } else {
        4
    }
}

/// Width of the character at `p`, cut at the end of `s`.
pub open spec fn width_at(s: Seq<u8>, p: int) -> int {
    if utf8_width(s[p]) <= s.len() - p {
        utf8_width(s[p])
    } else {
        s.len() - p
    }
}

/// The code point encoded at `p`: the payload bits of the leading byte and
/// of the continuation bytes.
pub open spec fn code_point_at(s: Seq<u8>, p: int) -> int {
    let w = width_at(s, p);
    if w == 1 {
        s[p] as int
    } else if w == 2 {
        (s[p] as int % 0x20) * 0x40 + s[p + 1] as int % 0x40
    } else if w == 3 {
        (s[p] as int % 0x10) * 0x1000 + (s[p + 1] as int % 0x40) * 0x40 + s[p + 2] as int % 0x40
    } else {
        (s[p] as int % 0x08) * 0x40000 + (s[p + 1] as int % 0x40) * 0x1000 + (s[p + 2] as int % 0x40) * 0x40
            + s[p + 3] as int % 0x40
    }
}

/// The code point and width of the character at `p`.
pub fn char_at(s: &[u8], p: usize) -> (r: (u32, usize))
    requires
        p < s@.len(),
    ensures
        r.0 as int == code_point_at(s@, p as int),
        r.1 as int == width_at(s@, p as int),
        1 <= r.1 <= s@.len() - p,
{
    let b0 = s[p];
    let avail = s.len() - p;
    let w: usize = if b0 < 0xC0 {
        1
    } else if b0 < 0xE0 {
        2
    } else if b0 < 0xF0 {
        3
    } else {
        4
    };
    let w = if w <= avail { w } else { avail };
    let cp: u32 = if w == 1 {
        b0 as u32
    } else if w == 2 {
        (b0 as u32 % 0x20) * 0x40 + s[p + 1] as u32 % 0x40
    } else if w == 3 {
        (b0 as u32 % 0x10) * 0x1000 + (s[p + 1] as u32 % 0x40) * 0x40 + s[p + 2] as u32 % 0x40
    } else {
        (b0 as u32 % 0x08) * 0x40000 + (s[p + 1] as u32 % 0x40) * 0x1000 + (s[p + 2] as u32 % 0x40) * 0x40
            + s[p + 3] as u32 % 0x40
    };
    (cp, w)
}

/// The position after the character at `q`, cut at `e`.
pub open spec fn next_char(s: Seq<u8>, q: int, e: int) -> int {
    if width_at(s, q) <= e - q {
        q + width_at(s, q)
    } else {
        e
    }
}

/// The number of characters in `s[q..e]`.
pub open spec fn char_count(s: Seq<u8>, q: int, e: int) -> int
    decreases e - q,
{
    if q < 0 || q >= e || q >= s.len() {
        0
    } else {
        1 + char_count(s, next_char(s, q, e), e)
    }
}

/// Every character of `s[q..e]` is of category `cat`.
pub open spec fn all_of_category(defs: &CharacterDefinitions, s: Seq<u8>, q: int, e: int, cat: CategoryId) -> bool
    decreases e - q,
{
    if q < 0 || q >= e || q >= s.len() {
        true
    } else {
        defs.categories_of(code_point_at(s, q) as u32).contains(cat) && all_of_category(
            defs,
            s,
            next_char(s, q, e),
            e,
            cat,
        )
    }
}

/// The first category at or after index `i` whose name has the bytes `name`.
pub open spec fn named_from(defs: &CharacterDefinitions, name: Seq<u8>, i: int) -> Option<CategoryId>
    decreases defs.category_names@.len() - i,
{
    if i < 0 || i >= defs.category_names@.len() {
        None
    } else if encode_utf8(defs.category_names@[i]@) == name {
        Some(CategoryId(i as usize))
    } else {
        named_from(defs, name, i + 1)
    }
}

/// Every character of `s[p..e]` is a kanji, by the category named `KANJI`.
pub open spec fn kanji_span(defs: &CharacterDefinitions, s: Seq<u8>, p: int, e: int) -> bool {
    match named_from(defs, "KANJI".spec_bytes(), 0) {
        Some(k) => all_of_category(defs, s, p, e, k),
        None => false,
    }
}

/// The number of characters in `s[p..e]`, and whether all of them are of
/// category `kanji` (false where there is no such category).
pub(crate) fn span_chars(s: &[u8], p: usize, e: usize, defs: &CharacterDefinitions, kanji: Option<CategoryId>) -> (r: (u32, bool))
    requires
        p < e <= s@.len(),
        s@.len() < 0xFFFF_FFFF,
    ensures
        1 <= r.0 <= e - p,
        r.0 == char_count(s@, p as int, e as int),
        r.1 == match kanji {
            Some(k) => all_of_category(defs, s@, p as int, e as int, k),
            None => false,
        },
{
    let mut q = p;
    let mut n: u32 = 0;
    let mut all_kanji = kanji.is_some();
    while q < e
        invariant
            p <= q <= e,
            e <= s@.len(),
            s@.len() < 0xFFFF_FFFF,
            n <= q - p,
            q > p ==> n >= 1,
            n + char_count(s@, q as int, e as int) == char_count(s@, p as int, e as int),
            match kanji {
                Some(k) => (all_kanji && all_of_category(defs, s@, q as int, e as int, k))
                    == all_of_category(defs, s@, p as int, e as int, k),
                None => !all_kanji,
            },
        decreases e - q,
    {
        let (cp, w) = char_at(s, q);
        if let Some(k) = kanji {
            if all_kanji && !defs.has_category(cp, k) {
                all_kanji = false;
            }
        }
        q = if w <= e - q { q + w } else { e };
        n = n + 1;
    }
    (n, all_kanji)
}

/// End of the run of characters of category `cat` that starts at `q`.
pub open spec fn run_end(defs: &CharacterDefinitions, s: Seq<u8>, q: int, cat: CategoryId) -> int
    decreases s.len() - q,
{
    if q < 0 || q >= s.len() {
        q
    } else if defs.categories_of(code_point_at(s, q) as u32).contains(cat) {
        run_end(defs, s, q + width_at(s, q), cat)
    } else {
        q
    }
}

/// The ends of the first 1 to `n` characters from `q`, as far as the text goes.
pub open spec fn length_ends(s: Seq<u8>, q: int, n: nat) -> Seq<int>
    decreases n,
{
    if n == 0 || q < 0 || q >= s.len() {
        seq![]
    } else {
        seq![q + width_at(s, q)] + length_ends(s, q + width_at(s, q), (n - 1) as nat)
    }
}

/// `spans` with `e` added unless it is there.
pub open spec fn add_span(spans: Seq<usize>, e: usize) -> Seq<usize> {
    if spans.contains(e) {
        spans
    } else {
        spans.push(e)
    }
}

/// `spans` with each of `ends` added in order.
pub open spec fn add_spans(spans: Seq<usize>, ends: Seq<int>) -> Seq<usize>
    decreases ends.len(),
{
    if ends.len() == 0 {
        spans
    } else {
        add_spans(add_span(spans, ends[0] as usize), ends.drop_first())
    }
}

/// The unknown-word ends from `p` that the first `n` categories of `cats`
/// give: for each, the end of its run where it groups, then the ends of the
/// first 1 to `length` characters; each end once, in first-seen order.
pub open spec fn unknown_ends(defs: &CharacterDefinitions, s: Seq<u8>, p: int, cats: Seq<CategoryId>, n: nat) -> Seq<usize>
    decreases n,
{
    if n == 0 {
        seq![]
    } else {
        let prev = unknown_ends(defs, s, p, cats, (n - 1) as nat);
        let cat = cats[n - 1];
        let data = defs.category_definitions@[cat.0 as int];
        let grouped = if data.group {
            add_span(prev, run_end(defs, s, p + width_at(s, p), cat) as usize)
        } else {
            prev
        };
        add_spans(grouped, length_ends(s, p, data.length as nat))
    }
}

proof fn lemma_run_end_bounds(defs: &CharacterDefinitions, s: Seq<u8>, q: int, cat: CategoryId)
    requires
        0 <= q <= s.len(),
    ensures
        q <= run_end(defs, s, q, cat) <= s.len(),
    decreases s.len() - q,
{
    if q < s.len() && defs.categories_of(code_point_at(s, q) as u32).contains(cat) {
        lemma_run_end_bounds(defs, s, q + width_at(s, q), cat);
    }
}

proof fn lemma_length_ends_bounds(s: Seq<u8>, q: int, n: nat)
    requires
        0 <= q <= s.len(),
    ensures
        forall|k: int| 0 <= k < length_ends(s, q, n).len() ==> q < #[trigger] length_ends(s, q, n)[k] <= s.len(),
    decreases n,
{
    if n > 0 && q < s.len() {
        let e = q + width_at(s, q);
        lemma_length_ends_bounds(s, e, (n - 1) as nat);
        let l = length_ends(s, q, n);
        assert forall|k: int| 0 <= k < l.len() implies q < #[trigger] l[k] <= s.len() by {
            if k > 0 {
                assert(l[k] == length_ends(s, e, (n - 1) as nat)[k - 1]);
            }
        }
    }
}

/// The ends of the unknown words that start at `p`: over each category of
/// `cats`, the maximal run of characters of that category where it groups,
/// and the first 1 to `length` characters; each end once.
pub(crate) fn unknown_spans(s: &[u8], p: usize, defs: &CharacterDefinitions, cats: &Vec<CategoryId>) -> (r: Vec<usize>)
    requires
        p < s@.len(),
        defs.wf(),
        forall|k: int| 0 <= k < cats@.len() ==> (#[trigger] cats@[k]).0 < defs.category_definitions@.len(),
    ensures
        r@ == unknown_ends(defs, s@, p as int, cats@, cats@.len() as nat),
        forall|k: int| 0 <= k < r@.len() ==> p < #[trigger] r@[k] <= s@.len(),
{
    let mut spans: Vec<usize> = Vec::new();
    let len = s.len();
    let mut c: usize = 0;
    while c < cats.len()
        invariant
            len == s@.len(),
            p < s@.len(),
            defs.wf(),
            forall|k: int| 0 <= k < cats@.len() ==> (#[trigger] cats@[k]).0 < defs.category_definitions@.len(),
            c <= cats@.len(),
            spans@ == unknown_ends(defs, s@, p as int, cats@, c as nat),
            forall|k: int| 0 <= k < spans@.len() ==> p < #[trigger] spans@[k] <= s@.len(),
        decreases cats@.len() - c,
    {
        let cat = cats[c];
        let data = defs.lookup_definition(cat);
        let ghost prev = spans@;
        if data.group {
            let (_, w0) = char_at(s, p);
            let mut q = p + w0;
            let mut run = true;
            proof {
                lemma_run_end_bounds(defs, s@, q as int, cat);
            }
            while run && q < s.len()
                invariant
                    len == s@.len(),
                    p < q <= s@.len(),
                    run_end(defs, s@, q as int, cat) == run_end(defs, s@, p + width_at(s@, p as int), cat),
                    !run ==> run_end(defs, s@, q as int, cat) == q,
                decreases s@.len() - q, (if run { 1int } else { 0int }),
            {
                let (cp, w) = char_at(s, q);
                if defs.has_category(cp, cat) {
                    q = q + w;
                } else {
                    run = false;
                }
            }
            push_span(&mut spans, q);
        }
        let ghost grouped = spans@;
        proof {
            assert(grouped == if data.group {
                add_span(prev, run_end(defs, s@, p + width_at(s@, p as int), cat) as usize)
            } else {
                prev
            });
            lemma_length_ends_bounds(s@, p as int, data.length as nat);
        }
        let mut q = p;
        let mut k: u32 = 0;
        while k < data.length && q < s.len()
            invariant
                len == s@.len(),
                p <= q <= s@.len(),
                p < s@.len(),
                k <= data.length,
                add_spans(spans@, length_ends(s@, q as int, (data.length - k) as nat))
                    == add_spans(grouped, length_ends(s@, p as int, data.length as nat)),
                forall|j: int| 0 <= j < spans@.len() ==> p < #[trigger] spans@[j] <= s@.len(),
                q > p ==> forall|j: int| 0 <= j < length_ends(s@, q as int, (data.length - k) as nat).len()
                    ==> q < #[trigger] length_ends(s@, q as int, (data.length - k) as nat)[j] <= s@.len(),
            decreases s@.len() - q,
        {
            let (_, w) = char_at(s, q);
            proof {
                let m = (data.length - k) as nat;
                assert(length_ends(s@, q as int, m) == seq![q + w] + length_ends(s@, q + w, (m - 1) as nat));
                assert((seq![(q + w) as int] + length_ends(s@, q + w, (m - 1) as nat)).drop_first()
                    =~= length_ends(s@, q + w, (m - 1) as nat));
                lemma_length_ends_bounds(s@, q + w, (m - 1) as nat);
            }
            q = q + w;
            push_span(&mut spans, q);
            k = k + 1;
        }
        proof {
            assert(length_ends(s@, q as int, (data.length - k) as nat) == Seq::<int>::empty());
        }
        c = c + 1;
    }
    spans
}

/// Appends `e` to `spans` unless it is there already.
fn push_span(spans: &mut Vec<usize>, e: usize)
    ensures
        final(spans)@ == (if old(spans)@.contains(e) { old(spans)@ } else { old(spans)@.push(e) }),
{
    let mut i: usize = 0;
    while i < spans.len()
        invariant
            i <= spans@.len(),
            spans@ == old(spans)@,
            forall|j: int| 0 <= j < i ==> spans@[j] != e,
        decreases spans@.len() - i,
    {
        if spans[i] == e {
            assert(spans@[i as int] == e);
            return;
        }
        i = i + 1;
    }
    spans.push(e);
}


/// The id of the category named `name`, if any.
pub fn category_by_name(defs: &CharacterDefinitions, name: &str) -> (r: Option<CategoryId>)
    ensures
        r == named_from(defs, name.spec_bytes(), 0),
{
    let mut i: usize = 0;
    while i < defs.category_names.len()
        invariant
            i <= defs.category_names@.len(),
            named_from(defs, name.spec_bytes(), 0) == named_from(defs, name.spec_bytes(), i as int),
        decreases defs.category_names@.len() - i,
    {
        if bytes_equal(defs.category_names[i].as_str().as_bytes(), name.as_bytes()) {
            return Some(CategoryId(i));
        }
        i = i + 1;
    }
    None
}

} // verus!
