//! Splitting of text files into lines and fields, and decimal numbers.
use vstd::prelude::*;

verus! {

/// The pieces of `b` between separators, scanning from byte `i` with the
/// current piece starting at `start` and the pieces so far in `acc`.
pub open spec fn split_acc(b: Seq<u8>, sep: u8, i: int, start: int, acc: Seq<Seq<u8>>) -> Seq<Seq<u8>>
    decreases b.len() - i,
{
    if i >= b.len() || i < 0 {
        acc.push(b.subrange(start, b.len() as int))
    } else if b[i] == sep {
        split_acc(b, sep, i + 1, i + 1, acc.push(b.subrange(start, i)))
    } else {
        split_acc(b, sep, i + 1, start, acc)
    }
}

/// The pieces of `b` between the separators `sep` (one more than separators).
pub open spec fn split_on(b: Seq<u8>, sep: u8) -> Seq<Seq<u8>> {
    split_acc(b, sep, 0, 0, seq![])
}

/// A line without its final carriage return.
pub open spec fn strip_cr(l: Seq<u8>) -> Seq<u8> {
    if l.len() > 0 && l.last() == 0x0D {
        l.drop_last()
    } else {
        l
    }
}

/// The lines of `b`: cut at line feeds, without a last empty line, each
/// without its final carriage return.
pub open spec fn lines_of(b: Seq<u8>) -> Seq<Seq<u8>> {
    let parts = split_on(b, 0x0A);
    let kept = if parts.last().len() == 0 { parts.drop_last() } else { parts };
    kept.map_values(|l: Seq<u8>| strip_cr(l))
}

/// The pieces of `b` between separators `sep`.
pub fn split_bytes(b: &[u8], sep: u8) -> (r: Vec<Vec<u8>>)
    ensures
        r@.map_values(|v: Vec<u8>| v@) == split_on(b@, sep),
        r@.len() >= 1,
{
    let mut out: Vec<Vec<u8>> = Vec::new();
    let mut cur: Vec<u8> = Vec::new();
    let n = b.len();
    let mut i: usize = 0;
    let ghost mut start: int = 0;
    proof {
        assert(out@.map_values(|v: Vec<u8>| v@) =~= Seq::<Seq<u8>>::empty());
    }
    while i < n
        invariant
            n == b@.len(),
            0 <= start <= i <= n,
            cur@ == b@.subrange(start, i as int),
            split_acc(b@, sep, 0, 0, seq![]) == split_acc(b@, sep, i as int, start, out@.map_values(|v: Vec<u8>| v@)),
        decreases n - i,
    {
        if b[i] == sep {
            let ghost before = out@.map_values(|v: Vec<u8>| v@);
            out.push(cur);
            cur = Vec::new();
            proof {
                assert(out@.map_values(|v: Vec<u8>| v@) =~= before.push(b@.subrange(start, i as int)));
                start = i + 1;
            }
        } else {
            cur.push(b[i]);
            proof {
                assert(cur@ =~= b@.subrange(start, i + 1));
            }
        }
        i = i + 1;
    }
    let ghost before = out@.map_values(|v: Vec<u8>| v@);
    out.push(cur);
    proof {
        assert(out@.map_values(|v: Vec<u8>| v@) =~= before.push(b@.subrange(start, n as int)));
    }
    out
}

/// The lines of `b`.
pub fn split_lines(b: &[u8]) -> (r: Vec<Vec<u8>>)
    ensures
        r@.map_values(|v: Vec<u8>| v@) == lines_of(b@),
{
    let mut parts = split_bytes(b, 0x0A);
    let ghost all = parts@.map_values(|v: Vec<u8>| v@);
    let last = parts.len() - 1;
    if parts[last].len() == 0 {
        parts.pop();
        proof {
            assert(parts@.map_values(|v: Vec<u8>| v@) =~= all.drop_last());
        }
    }
    let ghost kept = parts@.map_values(|v: Vec<u8>| v@);
    let mut out: Vec<Vec<u8>> = Vec::new();
    let mut k: usize = 0;
    while k < parts.len()
        invariant
            kept == parts@.map_values(|v: Vec<u8>| v@),
            k <= parts@.len(),
            out@.len() == k,
            forall|j: int| 0 <= j < k ==> (#[trigger] out@[j])@ == strip_cr(kept[j]),
        decreases parts@.len() - k,
    {
        let mut line = parts[k].clone();
        proof {
            assert(line@ == kept[k as int]);
        }
        let len = line.len();
        if len > 0 && line[len - 1] == 0x0D {
            line.pop();
        }
        proof {
            assert(line@ =~= strip_cr(kept[k as int]));
        }
        out.push(line);
        k = k + 1;
    }
    proof {
        assert(out@.map_values(|v: Vec<u8>| v@) =~= kept.map_values(|l: Seq<u8>| strip_cr(l)));
    }
    out
}

pub open spec fn is_digit(c: u8) -> bool {
    0x30 <= c <= 0x39
}

/// A non-empty run of decimal digits.
pub open spec fn is_digits(s: Seq<u8>) -> bool {
    s.len() > 0 && forall|i: int| 0 <= i < s.len() ==> #[trigger] is_digit(s[i])
}

pub open spec fn digits_value(s: Seq<u8>) -> int
    decreases s.len(),
{
    if s.len() == 0 {
        0
    } else {
        digits_value(s.drop_last()) * 10 + (s.last() - 0x30)
    }
}

/// The value of a decimal number with an optional leading sign, as
/// `i32::from_str` reads it (before its range check).
pub open spec fn decimal_value(s: Seq<u8>) -> Option<int> {
    if s.len() > 0 && s[0] == 0x2D {
        if is_digits(s.drop_first()) {
            Some(-digits_value(s.drop_first()))
        } else {
            None
        }
    } else if s.len() > 0 && s[0] == 0x2B {
        if is_digits(s.drop_first()) {
            Some(digits_value(s.drop_first()))
        } else {
            None
        }
    } else if is_digits(s) {
        Some(digits_value(s))
    } else {
        None
    }
}

/// The value of an unsigned decimal number with an optional leading plus
/// sign, as `u32::from_str` reads it (before its range check).
pub open spec fn unsigned_value(s: Seq<u8>) -> Option<int> {
    if s.len() > 0 && s[0] == 0x2D {
        None
    } else {
        decimal_value(s)
    }
}

/// Largest magnitude that `parse_decimal` reports exactly.
pub const DECIMAL_CAP: i64 = 0x1_0000_0000;

/// A decimal number with an optional minus sign; `None` where `s` is not
/// one, and the value cut at `DECIMAL_CAP` in magnitude.
pub fn parse_decimal(s: &[u8]) -> (r: Option<i64>)
    ensures
        r is None <==> decimal_value(s@) is None,
        r matches Some(v) ==> {
            let x = decimal_value(s@)->0;
            &&& (-DECIMAL_CAP <= x <= DECIMAL_CAP ==> v == x)
            &&& (x > DECIMAL_CAP ==> v == DECIMAL_CAP)
            &&& (x < -DECIMAL_CAP ==> v == -DECIMAL_CAP)
        },
{
    let negative = s.len() > 0 && s[0] == 0x2D;
    let signed = s.len() > 0 && (s[0] == 0x2D || s[0] == 0x2B);
    let digits: &[u8] = if signed { &s[1..s.len()] } else { s };
    proof {
        if signed {
            assert(digits@ =~= s@.drop_first());
        }
    }
    if digits.len() == 0 {
        return None;
    }
    let mut acc: i64 = 0;
    let mut i: usize = 0;
    while i < digits.len()
        invariant
            negative == (s@.len() > 0 && s@[0] == 0x2D),
            signed == (s@.len() > 0 && (s@[0] == 0x2D || s@[0] == 0x2B)),
            signed ==> digits@ == s@.drop_first(),
            !signed ==> digits@ == s@,
            i <= digits@.len(),
            forall|j: int| 0 <= j < i ==> #[trigger] is_digit(digits@[j]),
            acc == if digits_value(digits@.subrange(0, i as int)) < DECIMAL_CAP {
                digits_value(digits@.subrange(0, i as int))
            } else {
                DECIMAL_CAP as int
            },
            0 <= digits_value(digits@.subrange(0, i as int)),
        decreases digits@.len() - i,
    {
        let c = digits[i];
        if c < 0x30 || c > 0x39 {
            assert(!is_digit(digits@[i as int]));
            assert(!is_digits(digits@));
            return None;
        }
        let ghost prefix = digits@.subrange(0, i as int);
        let ghost next = digits@.subrange(0, i as int + 1);
        proof {
            assert(next.drop_last() =~= prefix);
            assert(next.last() == c);
        }
        let d = (c - 0x30) as i64;
        let grown = acc * 10 + d;
        proof {
            let v = digits_value(prefix);
            assert(digits_value(next) == v * 10 + d);
            if v >= DECIMAL_CAP {
                assert(v * 10 + d >= DECIMAL_CAP) by (nonlinear_arith) requires v >= DECIMAL_CAP, d >= 0;
            }
        }
        acc = if grown < DECIMAL_CAP { grown } else { DECIMAL_CAP };
        i = i + 1;
    }
    proof {
        assert(digits@.subrange(0, digits@.len() as int) =~= digits@);
    }
    if negative {
        Some(-acc)
    } else {
        Some(acc)
    }
}

/// Index of the first `c` in `b` at or after `i`, or the length.
pub open spec fn first_index(b: Seq<u8>, c: u8, i: int) -> int
    decreases b.len() - i,
{
    if i < 0 || i >= b.len() {
        b.len() as int
    } else if b[i] == c {
        i
    } else {
        first_index(b, c, i + 1)
    }
}

/// The bytes of `b` before its first `c`.
pub open spec fn before_first(b: Seq<u8>, c: u8) -> Seq<u8> {
    b.subrange(0, first_index(b, c, 0))
}

/// ASCII whitespace: space, tab, line feed, vertical tab, form feed,
/// carriage return.
pub open spec fn is_ws(c: u8) -> bool {
    c == 0x20 || (0x09 <= c <= 0x0D)
}

/// Index of the first byte at or after `i` that is not whitespace.
pub open spec fn ws_lead(b: Seq<u8>, i: int) -> int
    decreases b.len() - i,
{
    if i < 0 || i >= b.len() {
        b.len() as int
    } else if is_ws(b[i]) {
        ws_lead(b, i + 1)
    } else {
        i
    }
}

/// End of `b[..j]` without its trailing whitespace.
pub open spec fn ws_trail(b: Seq<u8>, j: int) -> int
    decreases j,
{
    if j <= 0 || j > b.len() {
        0
    } else if is_ws(b[j - 1]) {
        ws_trail(b, j - 1)
    } else {
        j
    }
}

/// `b` without leading and trailing ASCII whitespace.
pub open spec fn trim_ws(b: Seq<u8>) -> Seq<u8> {
    let s = ws_lead(b, 0);
    let e = ws_trail(b, b.len() as int);
    if e <= s {
        seq![]
    } else {
        b.subrange(s, e)
    }
}

/// The non-empty pieces of `parts`, in order.
pub open spec fn nonempty(parts: Seq<Seq<u8>>) -> Seq<Seq<u8>>
    decreases parts.len(),
{
    if parts.len() == 0 {
        parts
    } else if parts.last().len() > 0 {
        nonempty(parts.drop_last()).push(parts.last())
    } else {
        nonempty(parts.drop_last())
    }
}

/// Tabs made spaces.
pub open spec fn tabs_to_spaces(b: Seq<u8>) -> Seq<u8> {
    b.map_values(|c: u8| if c == 0x09 { 0x20u8 } else { c })
}

/// The words of `b`: its runs of bytes other than spaces and tabs.
pub open spec fn words_of(b: Seq<u8>) -> Seq<Seq<u8>> {
    nonempty(split_on(tabs_to_spaces(b), 0x20))
}

/// The bytes of `b` before its first `c`.
pub fn bytes_before(b: &[u8], c: u8) -> (r: Vec<u8>)
    ensures
        r@ == before_first(b@, c),
{
    let mut out: Vec<u8> = Vec::new();
    let mut i: usize = 0;
    while i < b.len() && b[i] != c
        invariant
            i <= b@.len(),
            out@ == b@.subrange(0, i as int),
            first_index(b@, c, 0) == first_index(b@, c, i as int),
        decreases b@.len() - i,
    {
        out.push(b[i]);
        proof {
            assert(out@ =~= b@.subrange(0, i + 1));
        }
        i = i + 1;
    }
    out
}

/// An unsigned decimal number with an optional plus sign; `None` where `s`
/// is not one, and the value cut at `DECIMAL_CAP`.
pub fn parse_unsigned(s: &[u8]) -> (r: Option<i64>)
    ensures
        r is None <==> unsigned_value(s@) is None,
        r matches Some(v) ==> {
            let x = unsigned_value(s@)->0;
            &&& 0 <= x
            &&& (x <= DECIMAL_CAP ==> v == x)
            &&& (x > DECIMAL_CAP ==> v == DECIMAL_CAP)
        },
{
    if s.len() > 0 && s[0] == 0x2D {
        return None;
    }
    let r = parse_decimal(s);
    proof {
        if r is Some {
            let t = if s@.len() > 0 && s@[0] == 0x2B { s@.drop_first() } else { s@ };
            lemma_digits_nonnegative(t);
        }
    }
    r
}

/// A run of digits has a non-negative value.
pub proof fn lemma_digits_nonnegative(s: Seq<u8>)
    ensures
        is_digits(s) ==> digits_value(s) >= 0,
    decreases s.len(),
{
    if s.len() > 0 && is_digits(s) {
        if s.len() > 1 {
            assert forall|i: int| 0 <= i < s.drop_last().len() implies #[trigger] is_digit(s.drop_last()[i]) by {
                assert(s.drop_last()[i] == s[i]);
            }
            lemma_digits_nonnegative(s.drop_last());
        }
        let p = digits_value(s.drop_last());
        assert(p * 10 >= 0) by (nonlinear_arith) requires p >= 0;
        assert(is_digit(s[s.len() - 1]));
    }
}

/// `b` without leading and trailing ASCII whitespace.
pub fn trim_bytes(b: &[u8]) -> (r: Vec<u8>)
    ensures
        r@ == trim_ws(b@),
{
    let n = b.len();
    let mut s: usize = 0;
    while s < n && (b[s] == 0x20 || (0x09 <= b[s] && b[s] <= 0x0D))
        invariant
            n == b@.len(),
            s <= n,
            ws_lead(b@, 0) == ws_lead(b@, s as int),
        decreases n - s,
    {
        s = s + 1;
    }
    let mut e: usize = n;
    while e > 0 && (b[e - 1] == 0x20 || (0x09 <= b[e - 1] && b[e - 1] <= 0x0D))
        invariant
            n == b@.len(),
            e <= n,
            ws_trail(b@, n as int) == ws_trail(b@, e as int),
        decreases e,
    {
        e = e - 1;
    }
    let mut out: Vec<u8> = Vec::new();
    if e > s {
        let mut i = s;
        while i < e
            invariant
                s <= i <= e <= n,
                n == b@.len(),
                out@ == b@.subrange(s as int, i as int),
            decreases e - i,
        {
            out.push(b[i]);
            proof {
                assert(out@ =~= b@.subrange(s as int, i + 1));
            }
            i = i + 1;
        }
    } else {
        assert(out@ =~= Seq::<u8>::empty());
    }
    out
}

/// The words of `b`, split at spaces and tabs.
pub fn split_words(b: &[u8]) -> (r: Vec<Vec<u8>>)
    ensures
        r@.map_values(|v: Vec<u8>| v@) == words_of(b@),
{
    let mut spaced: Vec<u8> = Vec::new();
    let mut i: usize = 0;
    while i < b.len()
        invariant
            i <= b@.len(),
            spaced@ == tabs_to_spaces(b@.subrange(0, i as int)),
        decreases b@.len() - i,
    {
        spaced.push(if b[i] == 0x09 { 0x20 } else { b[i] });
        proof {
            assert(spaced@ =~= tabs_to_spaces(b@.subrange(0, i + 1)));
        }
        i = i + 1;
    }
    proof {
        assert(b@.subrange(0, b@.len() as int) =~= b@);
    }
    let parts = split_bytes(spaced.as_slice(), 0x20);
    let ghost ps = parts@.map_values(|v: Vec<u8>| v@);
    let mut out: Vec<Vec<u8>> = Vec::new();
    let mut k: usize = 0;
    proof {
        assert(ps.subrange(0, 0) =~= Seq::<Seq<u8>>::empty());
        assert(out@.map_values(|v: Vec<u8>| v@) =~= Seq::<Seq<u8>>::empty());
    }
    while k < parts.len()
        invariant
            ps == parts@.map_values(|v: Vec<u8>| v@),
            k <= parts@.len(),
            out@.map_values(|v: Vec<u8>| v@) == nonempty(ps.subrange(0, k as int)),
        decreases parts@.len() - k,
    {
        let ghost before = out@.map_values(|v: Vec<u8>| v@);
        proof {
            assert(ps.subrange(0, k + 1).drop_last() =~= ps.subrange(0, k as int));
            assert(ps.subrange(0, k + 1).last() == parts@[k as int]@);
        }
        if parts[k].len() > 0 {
            out.push(parts[k].clone());
            proof {
                assert(out@.map_values(|v: Vec<u8>| v@) =~= before.push(parts@[k as int]@));
            }
        }
        k = k + 1;
    }
    proof {
        assert(ps.subrange(0, ps.len() as int) =~= ps);
    }
    out
}

pub open spec fn is_hex_digit(c: u8) -> bool {
    (0x30 <= c <= 0x39) || (0x41 <= c <= 0x46) || (0x61 <= c <= 0x66)
}

pub open spec fn hex_digit_value(c: u8) -> int {
    if c <= 0x39 {
        c - 0x30
    } else if c <= 0x46 {
        c - 0x41 + 10
    } else {
        c - 0x61 + 10
    }
}

/// A non-empty run of hexadecimal digits.
pub open spec fn is_hex(s: Seq<u8>) -> bool {
    s.len() > 0 && forall|i: int| 0 <= i < s.len() ==> #[trigger] is_hex_digit(s[i])
}

pub open spec fn hex_value(s: Seq<u8>) -> int
    decreases s.len(),
{
    if s.len() == 0 {
        0
    } else {
        hex_value(s.drop_last()) * 16 + hex_digit_value(s.last())
    }
}

/// `s` without its leading `0x` prefixes.
pub open spec fn strip_0x(s: Seq<u8>) -> Seq<u8>
    decreases s.len(),
{
    if s.len() >= 2 && s[0] == 0x30 && s[1] == 0x78 {
        strip_0x(s.subrange(2, s.len() as int))
    } else {
        s
    }
}

/// A 16-bit hexadecimal number after any `0x` prefixes.
pub open spec fn hex_u16(s: Seq<u8>) -> Option<int> {
    let t = strip_0x(s);
    if is_hex(t) && hex_value(t) <= 0xFFFF {
        Some(hex_value(t))
    } else {
        None
    }
}

/// Reads a 16-bit hexadecimal number after any `0x` prefixes.
pub fn parse_hex_u16(s: &[u8]) -> (r: Option<u16>)
    ensures
        r matches Some(v) ==> hex_u16(s@) == Some(v as int),
        r is None ==> hex_u16(s@) is None,
{
    let mut start: usize = 0;
    proof {
        assert(s@.subrange(0, s@.len() as int) =~= s@);
    }
    while s.len() >= 2 && start <= s.len() - 2 && s[start] == 0x30 && s[start + 1] == 0x78
        invariant
            start <= s@.len(),
            strip_0x(s@) == strip_0x(s@.subrange(start as int, s@.len() as int)),
        decreases s@.len() - start,
    {
        proof {
            let t = s@.subrange(start as int, s@.len() as int);
            assert(t.subrange(2, t.len() as int) =~= s@.subrange(start + 2, s@.len() as int));
        }
        start = start + 2;
    }
    let ghost t = s@.subrange(start as int, s@.len() as int);
    proof {
        assert(strip_0x(t) == t);
        assert(strip_0x(s@) == t);
    }
    if start >= s.len() {
        return None;
    }
    let mut acc: u32 = 0;
    let mut i: usize = start;
    while i < s.len()
        invariant
            start <= i <= s@.len(),
            t == s@.subrange(start as int, s@.len() as int),
            strip_0x(s@) == t,
            forall|j: int| 0 <= j < i - start ==> #[trigger] is_hex_digit(t[j]),
            acc == if hex_value(t.subrange(0, i - start)) <= 0xFFFF { hex_value(t.subrange(0, i - start)) } else { 0x10000 },
            0 <= hex_value(t.subrange(0, i - start)),
        decreases s@.len() - i,
    {
        let c = s[i];
        let d: u32 = if 0x30 <= c && c <= 0x39 {
            (c - 0x30) as u32
        } else if 0x41 <= c && c <= 0x46 {
            (c - 0x41 + 10) as u32
        } else if 0x61 <= c && c <= 0x66 {
            (c - 0x61 + 10) as u32
        } else {
            assert(!is_hex_digit(t[i - start]));
            assert(!is_hex(t));
            return None;
        };
        let ghost prefix = t.subrange(0, i - start);
        let ghost next = t.subrange(0, i - start + 1);
        proof {
            assert(next.drop_last() =~= prefix);
            assert(next.last() == c);
            let v = hex_value(prefix);
            if v > 0xFFFF {
                assert(v * 16 + d > 0xFFFF) by (nonlinear_arith) requires v > 0xFFFF, d >= 0;
            }
        }
        let grown = acc * 16 + d;
        acc = if grown <= 0xFFFF { grown } else { 0x10000 };
        i = i + 1;
    }
    proof {
        assert(t.subrange(0, t.len() as int) =~= t);
    }
    if acc > 0xFFFF {
        None
    } else {
        Some(acc as u16)
    }
}

/// Whether two byte strings are equal.
pub fn bytes_equal(a: &[u8], b: &[u8]) -> (r: bool)
    ensures
        r == (a@ == b@),
{
    if a.len() != b.len() {
        return false;
    }
    let mut i: usize = 0;
    while i < a.len()
        invariant
            a@.len() == b@.len(),
            i <= a@.len(),
            forall|j: int| 0 <= j < i ==> a@[j] == b@[j],
        decreases a@.len() - i,
    {
        if a[i] != b[i] {
            assert(a@[i as int] != b@[i as int]);
            return false;
        }
        i = i + 1;
    }
    assert(a@ =~= b@);
    true
}

/// A copy of `b`.
pub fn copy_bytes(b: &[u8]) -> (r: Vec<u8>)
    ensures
        r@ == b@,
{
    let mut out: Vec<u8> = Vec::new();
    let mut j: usize = 0;
    while j < b.len()
        invariant
            j <= b@.len(),
            out@ == b@.subrange(0, j as int),
        decreases b@.len() - j,
    {
        out.push(b[j]);
        proof {
            assert(out@ =~= b@.subrange(0, j + 1));
        }
        j = j + 1;
    }
    proof {
        assert(out@ =~= b@);
    }
    out
}

} // verus!
