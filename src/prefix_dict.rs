//! The dictionary of known words: a finite state transducer from surface
//! forms to runs of cost records.
use tantivy_fst::Map as FstMap;
use tantivy_fst::{IntoStreamer, Streamer};
use vstd::prelude::*;

use crate::word_entry::{le_u16, serialized, WordEntry, WordId};
use crate::ParsingError;

verus! {

/// tantivy-fst's map from byte strings to `u64`, carried opaque.
#[verifier::external_type_specification]
#[verifier::external_body]
#[verifier::reject_recursive_types(Data)]
pub struct ExFstMap<Data>(FstMap<Data>);

/// tantivy-fst's error type, carried opaque.
#[verifier::external_type_specification]
#[verifier::external_body]
pub struct ExFstError(tantivy_fst::Error);

/// The map from keys to values that a transducer holds.
pub uninterp spec fn fst_entries(fst: FstMap<Vec<u8>>) -> Map<Seq<u8>, u64>;

/// The transducer was written by tantivy-fst's own builder, so reading it
/// cannot fail.
pub uninterp spec fn fst_well_formed(fst: FstMap<Vec<u8>>) -> bool;

/// `a` comes strictly before `b`.
pub open spec fn lex_lt(a: Seq<u8>, b: Seq<u8>) -> bool {
    lex_le(a, b) && a != b
}

/// The keys rise strictly.
pub open spec fn keys_increasing(p: Seq<(Seq<u8>, u64)>) -> bool {
    forall|i: int| 0 < i < p.len() ==> lex_lt(#[trigger] p[i - 1].0, p[i].0)
}

/// The map that the pairs give, a later pair winning.
pub open spec fn pairs_map(p: Seq<(Seq<u8>, u64)>) -> Map<Seq<u8>, u64>
    decreases p.len(),
{
    if p.len() == 0 {
        Map::empty()
    } else {
        pairs_map(p.drop_last()).insert(p.last().0, p.last().1)
    }
}

pub open spec fn pairs_view(p: Seq<(Vec<u8>, u64)>) -> Seq<(Seq<u8>, u64)> {
    p.map_values(|kv: (Vec<u8>, u64)| (kv.0@, kv.1))
}

/// Lexicographic order on byte strings.
pub open spec fn lex_le(a: Seq<u8>, b: Seq<u8>) -> bool
    decreases a.len(),
{
    if a.len() == 0 {
        true
    } else if b.len() == 0 {
        false
    } else if a[0] != b[0] {
        a[0] < b[0]
    } else {
        lex_le(a.drop_first(), b.drop_first())
    }
}

/// Some key of `m` comes at or after `key`.
pub open spec fn has_key_from(m: Map<Seq<u8>, u64>, key: Seq<u8>) -> bool {
    exists|k: Seq<u8>| m.contains_key(k) && #[trigger] lex_le(key, k)
}

/// `k` is the least key of `m` at or after `key`, and `v` its value.
pub open spec fn least_key_from(m: Map<Seq<u8>, u64>, key: Seq<u8>, k: Seq<u8>, v: u64) -> bool {
    &&& m.contains_key(k)
    &&& m[k] == v
    &&& lex_le(key, k)
    &&& forall|k2: Seq<u8>| m.contains_key(k2) && #[trigger] lex_le(key, k2) ==> lex_le(k, k2)
}

pub open spec fn is_prefix(p: Seq<u8>, s: Seq<u8>) -> bool {
    p.len() <= s.len() && s.subrange(0, p.len() as int) == p
}

/// Relies on `tantivy_fst::Map::from_iter`: builds the map in memory from
/// keys in strictly increasing order, and fails on any other order.
#[verifier::external_body]
fn build_map(pairs: &Vec<(Vec<u8>, u64)>) -> (r: Result<FstMap<Vec<u8>>, tantivy_fst::Error>)
    ensures
        r is Ok <==> keys_increasing(pairs_view(pairs@)),
        r is Ok ==> fst_entries(r.unwrap()) == pairs_map(pairs_view(pairs@)),
        r is Ok ==> fst_well_formed(r.unwrap()),
{
    FstMap::from_iter(pairs.iter().map(|(k, v)| (k.as_slice(), *v)))
}

/// Relies on `tantivy_fst::Map::range` with a `ge` bound: its stream yields
/// the keys from `key` on in lexicographic order, each with its value; the
/// first item is the least key at or after `key`.
#[verifier::external_body]
fn fst_ceiling(fst: &FstMap<Vec<u8>>, key: &[u8]) -> (r: Option<(Vec<u8>, u64)>)
    requires
        fst_well_formed(*fst),
    ensures
        r is None <==> !has_key_from(fst_entries(*fst), key@),
        r is Some ==> least_key_from(fst_entries(*fst), key@, r.unwrap().0@, r.unwrap().1),
{
    let mut stream = fst.range().ge(key).into_stream();
    stream.next().map(|(k, v)| (k.to_vec(), v))
}

/// Comparing two strings that agree on their first bytes comes down to
/// comparing the rest.
proof fn lemma_lex_le_rest(a: Seq<u8>, b: Seq<u8>, i: int)
    requires
        0 <= i <= a.len(),
        i <= b.len(),
        a.subrange(0, i) == b.subrange(0, i),
    ensures
        lex_le(a, b) == lex_le(a.subrange(i, a.len() as int), b.subrange(i, b.len() as int)),
    decreases i,
{
    if i > 0 {
        assert(a[0] == a.subrange(0, i)[0]);
        assert(b[0] == b.subrange(0, i)[0]);
        assert(a.drop_first().subrange(0, i - 1) =~= a.subrange(0, i).drop_first());
        assert(b.drop_first().subrange(0, i - 1) =~= b.subrange(0, i).drop_first());
        lemma_lex_le_rest(a.drop_first(), b.drop_first(), i - 1);
        assert(a.drop_first().subrange(i - 1, a.len() - 1) =~= a.subrange(i, a.len() as int));
        assert(b.drop_first().subrange(i - 1, b.len() - 1) =~= b.subrange(i, b.len() as int));
    } else {
        assert(a.subrange(0, a.len() as int) =~= a);
        assert(b.subrange(0, b.len() as int) =~= b);
    }
}

/// Whether `a` comes strictly before `b`.
fn bytes_lex_lt(a: &[u8], b: &[u8]) -> (r: bool)
    ensures
        r == lex_lt(a@, b@),
{
    let mut i: usize = 0;
    while i < a.len() && i < b.len() && a[i] == b[i]
        invariant
            i <= a@.len(),
            i <= b@.len(),
            a@.subrange(0, i as int) == b@.subrange(0, i as int),
        decreases a@.len() - i,
    {
        proof {
            assert(a@.subrange(0, i + 1) =~= a@.subrange(0, i as int).push(a@[i as int]));
            assert(b@.subrange(0, i + 1) =~= b@.subrange(0, i as int).push(b@[i as int]));
        }
        i = i + 1;
    }
    proof {
        lemma_lex_le_rest(a@, b@, i as int);
        let ra = a@.subrange(i as int, a@.len() as int);
        let rb = b@.subrange(i as int, b@.len() as int);
        if i == a.len() && i == b.len() {
            assert(a@ =~= a@.subrange(0, i as int));
            assert(b@ =~= b@.subrange(0, i as int));
        } else if i < a.len() && i < b.len() {
            assert(ra[0] == a@[i as int] && rb[0] == b@[i as int]);
            assert(a@[i as int] != b@[i as int]);
        } else if i < a.len() {
            assert(a@.len() != b@.len());
        } else {
            assert(a@.len() != b@.len());
            assert(ra.len() == 0);
        }
    }
    if i == a.len() {
        i < b.len()
    } else if i == b.len() {
        false
    } else {
        a[i] < b[i]
    }
}

/// If `k` lies between `p` and a string that starts with `p`, it starts with `p`.
proof fn lemma_between_prefix(p: Seq<u8>, k: Seq<u8>, q: Seq<u8>)
    requires
        lex_le(p, k),
        lex_le(k, q),
        is_prefix(p, q),
    ensures
        is_prefix(p, k),
    decreases p.len(),
{
    if p.len() > 0 {
        assert(q.subrange(0, p.len() as int)[0] == p[0]);
        assert(q[0] == p[0]);
        assert(k.len() > 0);
        assert(k[0] == p[0]);
        assert(q.drop_first().subrange(0, p.len() - 1) =~= p.drop_first());
        lemma_between_prefix(p.drop_first(), k.drop_first(), q.drop_first());
        assert(k.subrange(0, p.len() as int) =~= seq![k[0]] + k.drop_first().subrange(0, p.len() - 1));
        assert(p =~= seq![p[0]] + p.drop_first());
    } else {
        assert(k.subrange(0, 0) =~= p);
    }
}

/// A string that starts with `p` comes at or after `p`.
proof fn lemma_prefix_le(p: Seq<u8>, q: Seq<u8>)
    requires
        is_prefix(p, q),
    ensures
        lex_le(p, q),
    decreases p.len(),
{
    if p.len() > 0 {
        assert(q[0] == p[0]);
        assert(q.drop_first().subrange(0, p.len() - 1) =~= p.drop_first());
        lemma_prefix_le(p.drop_first(), q.drop_first());
    }
}

/// `lex_le` is reflexive.
proof fn lemma_lex_refl(a: Seq<u8>)
    ensures
        lex_le(a, a),
    decreases a.len(),
{
    if a.len() > 0 {
        lemma_lex_refl(a.drop_first());
    }
}

/// A value names a non-empty run of records that lies in the blob.
pub open spec fn run_valid(v: u64, vals: Seq<u8>) -> bool {
    let len = v as int % 32;
    let offset = v as int / 32;
    len >= 1 && (offset + len) * 4 <= vals.len() && offset + len <= 0xFFFF_FFFF
}

/// The records of the value `v`: `v & 31` records from record `v >> 5` on,
/// none where that run is empty or leaves the blob.
pub open spec fn run_of(v: u64, vals: Seq<u8>) -> (int, int) {
    let len = v as int % 32;
    let offset = v as int / 32;
    if len == 0 || (offset + len) * 4 > vals.len() || offset + len > 0xFFFF_FFFF {
        (0, 0)
    } else {
        (offset, len)
    }
}

/// The entry that record `idx` of the blob holds, its index as word id.
pub open spec fn record_entry(e: WordEntry, vals: Seq<u8>, idx: int) -> bool {
    &&& 0 <= idx && idx * 4 + 4 <= vals.len()
    &&& serialized(e, vals.subrange(idx * 4, idx * 4 + 4))
    &&& e.word_id.0 == idx
}

/// Whether `plen` bytes of `s` end on a character boundary.
pub open spec fn at_boundary(s: Seq<u8>, plen: int) -> bool {
    plen == s.len() || (s[plen] & 0xC0) != 0x80
}

/// The matches of keys of `dict` against the first `n` prefixes of `s`:
/// for each prefix length, in increasing order, the records of its value.
pub open spec fn prefix_matches(dict: Map<Seq<u8>, u64>, vals: Seq<u8>, s: Seq<u8>, n: nat) -> Seq<(usize, int)>
    decreases n,
{
    if n == 0 {
        seq![]
    } else {
        let prev = prefix_matches(dict, vals, s, (n - 1) as nat);
        let p = s.subrange(0, n as int);
        if n <= s.len() && at_boundary(s, n as int) && dict.contains_key(p) {
            let (offset, len) = run_of(dict[p], vals);
            prev + Seq::new(len as nat, |i: int| (n as usize, offset + i))
        } else {
            prev
        }
    }
}

/// Every match is a key of the dictionary that is a prefix of `s` and ends
/// on a character boundary.
pub proof fn lemma_prefix_sound(dict: Map<Seq<u8>, u64>, vals: Seq<u8>, s: Seq<u8>, n: nat)
    requires
        s.len() <= usize::MAX,
    ensures
        forall|k: int| 0 <= k < prefix_matches(dict, vals, s, n).len() ==> {
            let m = #[trigger] prefix_matches(dict, vals, s, n)[k];
            &&& 1 <= m.0 <= n
            &&& m.0 <= s.len()
            &&& at_boundary(s, m.0 as int)
            &&& dict.contains_key(s.subrange(0, m.0 as int))
            &&& run_of(dict[s.subrange(0, m.0 as int)], vals).0 <= m.1
            &&& m.1 < run_of(dict[s.subrange(0, m.0 as int)], vals).0 + run_of(dict[s.subrange(0, m.0 as int)], vals).1
        },
    decreases n,
{
    if n > 0 {
        lemma_prefix_sound(dict, vals, s, (n - 1) as nat);
        let prev = prefix_matches(dict, vals, s, (n - 1) as nat);
        let cur = prefix_matches(dict, vals, s, n);
        assert forall|k: int| 0 <= k < cur.len() implies {
            let m = #[trigger] cur[k];
            &&& 1 <= m.0 <= n
            &&& m.0 <= s.len()
            &&& at_boundary(s, m.0 as int)
            &&& dict.contains_key(s.subrange(0, m.0 as int))
            &&& run_of(dict[s.subrange(0, m.0 as int)], vals).0 <= m.1
            &&& m.1 < run_of(dict[s.subrange(0, m.0 as int)], vals).0 + run_of(dict[s.subrange(0, m.0 as int)], vals).1
        } by {
            if k < prev.len() {
                assert(cur[k] == prev[k]);
            } else {
                let p = s.subrange(0, n as int);
                assert(n <= s.len() && at_boundary(s, n as int) && dict.contains_key(p));
                let (offset, len) = run_of(dict[p], vals);
                assert(cur == prev + Seq::new(len as nat, |i: int| (n as usize, offset + i)));
                assert(cur[k].0 == n);
                assert(cur[k].1 == offset + (k - prev.len()));
            }
        }
    }
}

/// Surface forms mapped to groups of word entries.
pub struct PrefixDict {
    fst: FstMap<Vec<u8>>,
    vals_data: Vec<u8>,
}

impl PrefixDict {
    #[verifier::type_invariant]
    spec fn inv(&self) -> bool {
        fst_well_formed(self.fst)
    }

    pub closed spec fn entries(&self) -> Map<Seq<u8>, u64> {
        fst_entries(self.fst)
    }

    pub closed spec fn vals(&self) -> Seq<u8> {
        self.vals_data@
    }

    /// Every record of the blob has a context id below `bound`.
    pub open spec fn cost_ids_below(&self, bound: int) -> bool {
        forall|idx: int| 0 <= idx && idx * 4 + 4 <= self.vals().len()
            ==> #[trigger] le_u16(self.vals()[idx * 4 + 2], self.vals()[idx * 4 + 3]) < bound
    }

    /// Whether every record of the blob has a context id below `bound`.
    pub fn cost_ids_are_below(&self, bound: u32) -> (r: bool)
        ensures
            r == self.cost_ids_below(bound as int),
    {
        let total = self.vals_data.len();
        let n = total / 4;
        let mut idx: usize = 0;
        while idx < n
            invariant
                total == self.vals().len(),
                n == self.vals().len() / 4,
                idx <= n,
                forall|j: int| 0 <= j < idx ==> #[trigger] le_u16(self.vals()[j * 4 + 2], self.vals()[j * 4 + 3]) < bound,
            decreases n - idx,
        {
            let lo = self.vals_data[idx * 4 + 2];
            let hi = self.vals_data[idx * 4 + 3];
            if (lo as u32) + 256 * (hi as u32) >= bound {
                assert(le_u16(self.vals()[idx * 4 + 2], self.vals()[idx * 4 + 3]) >= bound);
                return false;
            }
            idx = idx + 1;
        }
        proof {
            assert forall|j: int| 0 <= j && j * 4 + 4 <= self.vals().len()
                implies #[trigger] le_u16(self.vals()[j * 4 + 2], self.vals()[j * 4 + 3]) < bound by {
                assert(j < n);
            }
        }
        true
    }

    /// A dictionary over `keys`, each with the run of records of its group
    /// in `vals_data`. Fails where the keys do not rise strictly or a value
    /// names an empty run or one that leaves the blob.
    pub fn new(keys: Vec<(Vec<u8>, u64)>, vals_data: Vec<u8>) -> (r: Result<PrefixDict, ParsingError>)
        ensures
            r is Ok <==> keys_increasing(pairs_view(keys@)) && forall|i: int|
                0 <= i < keys@.len() ==> #[trigger] run_valid(keys@[i].1, vals_data@),
            r matches Ok(d) ==> d.vals() == vals_data@ && d.entries() == pairs_map(pairs_view(keys@)),
    {
        let ghost kv = pairs_view(keys@);
        let n_vals = vals_data.len();
        let mut i: usize = 0;
        while i < keys.len()
            invariant
                kv == pairs_view(keys@),
                n_vals == vals_data@.len(),
                i <= keys@.len(),
                forall|j: int| 0 <= j < i ==> #[trigger] run_valid(keys@[j].1, vals_data@),
                forall|j: int| 0 < j < i ==> lex_lt(#[trigger] kv[j - 1].0, kv[j].0),
            decreases keys@.len() - i,
        {
            let v = keys[i].1;
            let len: u64 = v % 32;
            let offset: u64 = v / 32;
            let ok = len != 0 && offset <= (n_vals / 4) as u64 && len <= (n_vals / 4) as u64 - offset
                && offset <= 0xFFFF_FFFF && len <= 0xFFFF_FFFF - offset;
            if !ok {
                proof {
                    assert(!run_valid(keys@[i as int].1, vals_data@));
                }
                return Err(ParsingError::ContentError(String::from_str("dictionary value names an empty or missing run")));
            }
            if i > 0 {
                let lt = bytes_lex_lt(keys[i - 1].0.as_slice(), keys[i].0.as_slice());
                proof {
                    assert(kv[i - 1].0 == keys@[i - 1].0@ && kv[i as int].0 == keys@[i as int].0@);
                }
                if !lt {
                    return Err(ParsingError::ContentError(String::from_str("dictionary keys out of order")));
                }
            }
            i = i + 1;
        }
        match build_map(&keys) {
            Ok(fst) => Ok(PrefixDict { fst, vals_data }),
            Err(_) => Err(ParsingError::ContentError(String::from_str("dictionary keys out of order"))),
        }
    }

    /// Every dictionary key that is a prefix of `s` and ends on a character
    /// boundary, shortest first, with each entry of its group; each entry
    /// carries its record index as word id.
    pub fn prefix(&self, s: &[u8]) -> (r: Vec<(usize, WordEntry)>)
        ensures
            r@.len() == prefix_matches(self.entries(), self.vals(), s@, s@.len()).len(),
            forall|k: int| 0 <= k < r@.len() ==> {
                let m = #[trigger] prefix_matches(self.entries(), self.vals(), s@, s@.len())[k];
                &&& r@[k].0 == m.0
                &&& record_entry(r@[k].1, self.vals(), m.1)
            },
    {
        let mut out: Vec<(usize, WordEntry)> = Vec::new();
        let mut n: usize = 0;
        let mut live = true;
        proof {
            assert(out@ =~= Seq::<(usize, WordEntry)>::empty());
        }
        while n < s.len() && live
            invariant
                n <= s@.len(),
                out@.len() == prefix_matches(self.entries(), self.vals(), s@, n as nat).len(),
                forall|k: int| 0 <= k < out@.len() ==> {
                    let m = #[trigger] prefix_matches(self.entries(), self.vals(), s@, n as nat)[k];
                    &&& out@[k].0 == m.0
                    &&& record_entry(out@[k].1, self.vals(), m.1)
                },
                !live ==> forall|q: Seq<u8>| #[trigger] self.entries().contains_key(q) ==> !is_prefix(s@.subrange(0, n as int + 1), q),
                !live ==> n < s@.len(),
            decreases s@.len() - n, (if live { 1int } else { 0int }),
        {
            let plen = n + 1;
            let p = &s[0..plen];
            proof {
                use_type_invariant(self);
            }
            match fst_ceiling(&self.fst, p) {
                None => {
                    proof {
                        assert forall|q: Seq<u8>| #[trigger] self.entries().contains_key(q) implies !is_prefix(p@, q) by {
                            if is_prefix(p@, q) {
                                lemma_prefix_le(p@, q);
                            }
                        }
                    }
                    live = false;
                },
                Some((k, v)) => {
                    let starts = starts_with(&k, p);
                    if !starts {
                        proof {
                            assert forall|q: Seq<u8>| #[trigger] self.entries().contains_key(q) implies !is_prefix(p@, q) by {
                                if is_prefix(p@, q) {
                                    lemma_prefix_le(p@, q);
                                    lemma_between_prefix(p@, k@, q);
                                }
                            }
                        }
                        live = false;
                    } else {
                        let ghost prev = prefix_matches(self.entries(), self.vals(), s@, n as nat);
                        let ghost now = prefix_matches(self.entries(), self.vals(), s@, plen as nat);
                        let boundary = plen == s.len() || (s[plen] & 0xC0) != 0x80;
                        if boundary && k.len() == plen {
                            proof {
                                assert(k@ =~= p@);
                            }
                            self.push_run(&mut out, plen, v, Ghost(prev));
                            proof {
                                assert(now == prev + Seq::new(run_of(v, self.vals()).1 as nat, |i: int| (plen, run_of(v, self.vals()).0 + i)));
                            }
                        } else {
                            proof {
                                if boundary && self.entries().contains_key(p@) {
                                    lemma_lex_refl(p@);
                                    assert(lex_le(k@, p@));
                                    assert(is_prefix(p@, k@));
                                    lemma_prefix_le(p@, k@);
                                    lemma_lex_antisym(k@, p@);
                                }
                                assert(now == prev);
                            }
                        }
                        n = n + 1;
                    }
                },
            }
        }
        proof {
            if !live {
                lemma_no_more_matches(self.entries(), self.vals(), s@, n as nat, s@.len() as nat);
            }
        }
        out
    }

    /// Appends the entries of the run that `v` names, with prefix length `plen`.
    fn push_run(&self, out: &mut Vec<(usize, WordEntry)>, plen: usize, v: u64, Ghost(prev): Ghost<Seq<(usize, int)>>)
        requires
            old(out)@.len() == prev.len(),
            forall|k: int| 0 <= k < old(out)@.len() ==> {
                let m = #[trigger] prev[k];
                &&& old(out)@[k].0 == m.0
                &&& record_entry(old(out)@[k].1, self.vals(), m.1)
            },
        ensures
            ({
                let (offset, len) = run_of(v, self.vals());
                let now = prev + Seq::new(len as nat, |i: int| (plen, offset + i));
                &&& final(out)@.len() == now.len()
                &&& forall|k: int| 0 <= k < final(out)@.len() ==> {
                    let m = #[trigger] now[k];
                    &&& final(out)@[k].0 == m.0
                    &&& record_entry(final(out)@[k].1, self.vals(), m.1)
                }
            }),
    {
        let ghost run = run_of(v, self.vals());
        let len: u64 = v % 32;
        let offset: u64 = v / 32;
        let n_vals = self.vals_data.len();
        let ok = len != 0 && offset <= (n_vals / 4) as u64 && len <= (n_vals / 4) as u64 - offset
            && offset <= 0xFFFF_FFFF && len <= 0xFFFF_FFFF - offset;
        proof {
            if ok {
                assert((offset + len) * 4 <= n_vals);
            } else {
                assert(len == 0 || (offset + len) * 4 > n_vals || offset + len > 0xFFFF_FFFF);
            }
        }
        let count: usize = if ok { len as usize } else { 0 };
        let first: usize = if ok { offset as usize } else { 0 };
        let ghost now = prev + Seq::new(run.1 as nat, |i: int| (plen, run.0 + i));
        let mut i: usize = 0;
        while i < count
            invariant
                count == run.1,
                first == run.0,
                count > 0 ==> (first + count) * 4 <= self.vals().len(),
                first + count <= 0xFFFF_FFFF,
                self.vals() == self.vals_data@,
                n_vals == self.vals_data@.len(),
                i <= count,
                now == prev + Seq::new(run.1 as nat, |j: int| (plen, run.0 + j)),
                out@.len() == prev.len() + i,
                forall|k: int| 0 <= k < out@.len() ==> {
                    let m = #[trigger] now[k];
                    &&& out@[k].0 == m.0
                    &&& record_entry(out@[k].1, self.vals(), m.1)
                },
            decreases count - i,
        {
            let idx = first + i;
            let e = WordEntry::deserialize(&self.vals_data[idx * 4..idx * 4 + 4]);
            let entry = WordEntry { word_id: WordId(idx as u32), ..e };
            proof {
                assert(self.vals_data@.subrange(idx * 4, idx * 4 + 4).subrange(0, 4) =~= self.vals_data@.subrange(idx * 4, idx * 4 + 4));
            }
            out.push((plen, entry));
            proof {
                assert(now[prev.len() + i] == (plen, run.0 + i));
            }
            i = i + 1;
        }
    }
}

/// `lex_le` is antisymmetric.
proof fn lemma_lex_antisym(a: Seq<u8>, b: Seq<u8>)
    requires
        lex_le(a, b),
        lex_le(b, a),
    ensures
        a == b,
    decreases a.len(),
{
    if a.len() > 0 {
        lemma_lex_antisym(a.drop_first(), b.drop_first());
        assert(a =~= seq![a[0]] + a.drop_first());
        assert(b =~= seq![b[0]] + b.drop_first());
    } else {
        assert(b.len() == 0);
        assert(a =~= b);
    }
}

/// Once no key starts with the first `m + 1` bytes, longer prefixes add no match.
proof fn lemma_no_more_matches(dict: Map<Seq<u8>, u64>, vals: Seq<u8>, s: Seq<u8>, m: nat, n: nat)
    requires
        m < s.len(),
        m <= n,
        forall|q: Seq<u8>| #[trigger] dict.contains_key(q) ==> !is_prefix(s.subrange(0, m as int + 1), q),
    ensures
        prefix_matches(dict, vals, s, n) == prefix_matches(dict, vals, s, m),
    decreases n,
{
    if n > m {
        lemma_no_more_matches(dict, vals, s, m, (n - 1) as nat);
        if n <= s.len() {
            let p = s.subrange(0, n as int);
            if dict.contains_key(p) {
                assert(p.subrange(0, m as int + 1) =~= s.subrange(0, m as int + 1));
            }
        }
    }
}

/// Whether `k` begins with `p`.
fn starts_with(k: &Vec<u8>, p: &[u8]) -> (r: bool)
    ensures
        r == is_prefix(p@, k@),
{
    if p.len() > k.len() {
        return false;
    }
    let mut i: usize = 0;
    while i < p.len()
        invariant
            p@.len() <= k@.len(),
            i <= p@.len(),
            forall|j: int| 0 <= j < i ==> k@[j] == p@[j],
        decreases p@.len() - i,
    {
        if k[i] != p[i] {
            assert(k@.subrange(0, p@.len() as int)[i as int] != p@[i as int]);
            return false;
        }
        i = i + 1;
    }
    assert(k@.subrange(0, p@.len() as int) =~= p@);
    true
}

} // verus!
