//! Character categories: which classes a character belongs to, and how
//! unknown words of each class are formed.
use vstd::prelude::*;

verus! {

/// How unknown words of a category are formed.
#[derive(Debug, Copy, Clone)]
pub struct CategoryData {
    /// Always generate unknown words at characters of this category.
    pub invoke: bool,
    /// Make one unknown word of a maximal run of characters of this category.
    pub group: bool,
    /// Also make unknown words of the first 1 to `length` characters.
    pub length: u32,
}

#[derive(Clone, Debug, Hash, Copy, PartialEq, Eq, Structural)]
pub struct CategoryId(pub usize);

/// The category table: rules per category, names, code point intervals
/// with their categories, and the category of characters in no interval.
pub struct CharacterDefinitions {
    pub category_definitions: Vec<CategoryData>,
    pub category_names: Vec<String>,
    pub mapping: Vec<(u32, u32, Vec<CategoryId>)>,
    pub default_category: [CategoryId; 1],
}

/// `acc` extended by the ids of `ids` that it lacks, in order.
pub open spec fn add_unique(acc: Seq<CategoryId>, ids: Seq<CategoryId>) -> Seq<CategoryId>
    decreases ids.len(),
{
    if ids.len() == 0 {
        acc
    } else {
        let a = add_unique(acc, ids.drop_last());
        if a.contains(ids.last()) {
            a
        } else {
            a.push(ids.last())
        }
    }
}

/// The categories of the first `k` intervals that hold code point `c`, each
/// once, in first-seen order.
pub open spec fn matching_categories(mapping: Seq<(u32, u32, Seq<CategoryId>)>, c: u32, k: nat) -> Seq<CategoryId>
    decreases k,
{
    if k == 0 {
        seq![]
    } else {
        let a = matching_categories(mapping, c, (k - 1) as nat);
        let (lo, hi, ids) = mapping[k - 1];
        if lo <= c && c <= hi {
            add_unique(a, ids)
        } else {
            a
        }
    }
}

impl CharacterDefinitions {
    pub open spec fn mapping_view(&self) -> Seq<(u32, u32, Seq<CategoryId>)> {
        self.mapping@.map_values(|t: (u32, u32, Vec<CategoryId>)| (t.0, t.1, t.2@))
    }

    /// The categories of code point `c`: those of every interval that holds
    /// it, deduplicated in first-seen order, or the default category.
    pub open spec fn categories_of(&self, c: u32) -> Seq<CategoryId> {
        let m = matching_categories(self.mapping_view(), c, self.mapping@.len() as nat);
        if m.len() == 0 {
            seq![self.default_category[0]]
        } else {
            m
        }
    }

    /// Every category id in the table has rules and a name.
    pub open spec fn wf(&self) -> bool {
        &&& self.category_names@.len() == self.category_definitions@.len()
        &&& self.default_category[0].0 < self.category_definitions@.len()
        &&& forall|i: int, j: int|
            0 <= i < self.mapping@.len() && 0 <= j < self.mapping@[i].2@.len()
                ==> (#[trigger] self.mapping@[i].2@[j]).0 < self.category_definitions@.len()
    }

    /// Whether every category id in the table has rules and a name.
    pub fn is_valid(&self) -> (r: bool)
        ensures
            r == self.wf(),
    {
        let n = self.category_definitions.len();
        if self.category_names.len() != n || self.default_category[0].0 >= n {
            return false;
        }
        let mut i: usize = 0;
        while i < self.mapping.len()
            invariant
                n == self.category_definitions@.len(),
                i <= self.mapping@.len(),
                forall|i2: int, j: int| 0 <= i2 < i && 0 <= j < self.mapping@[i2].2@.len()
                    ==> (#[trigger] self.mapping@[i2].2@[j]).0 < n,
            decreases self.mapping@.len() - i,
        {
            let ids = &self.mapping[i].2;
            let mut j: usize = 0;
            while j < ids.len()
                invariant
                    n == self.category_definitions@.len(),
                    i < self.mapping@.len(),
                    ids@ == self.mapping@[i as int].2@,
                    j <= ids@.len(),
                    forall|i2: int, j2: int| 0 <= i2 < i && 0 <= j2 < self.mapping@[i2].2@.len()
                        ==> (#[trigger] self.mapping@[i2].2@[j2]).0 < n,
                    forall|j2: int| 0 <= j2 < j ==> (#[trigger] ids@[j2]).0 < n,
                decreases ids@.len() - j,
            {
                if ids[j].0 >= n {
                    assert(self.mapping@[i as int].2@[j as int].0 >= n);
                    return false;
                }
                j = j + 1;
            }
            i = i + 1;
        }
        true
    }

    pub fn categories(&self) -> (r: &[String])
        ensures
            r@ == self.category_names@,
    {
        self.category_names.as_slice()
    }

    pub fn lookup_definition(&self, category_id: CategoryId) -> (r: &CategoryData)
        requires
            category_id.0 < self.category_definitions@.len(),
        ensures
            *r == self.category_definitions@[category_id.0 as int],
    {
        &self.category_definitions[category_id.0]
    }

    pub fn category_name(&self, category_id: CategoryId) -> (r: &str)
        requires
            category_id.0 < self.category_names@.len(),
        ensures
            r@ == self.category_names@[category_id.0 as int]@,
    {
        self.category_names[category_id.0].as_str()
    }

    /// Fills `categories_buffer` with the categories of `c`.
    pub fn lookup_categories(&self, c: char, categories_buffer: &mut Vec<CategoryId>)
        ensures
            final(categories_buffer)@ == self.categories_of(c as u32),
    {
        categories_buffer.clear();
        self.lookup_code_point(c as u32, categories_buffer);
    }

    /// Fills the empty `buf` with the categories of code point `c`.
    pub fn lookup_code_point(&self, c: u32, buf: &mut Vec<CategoryId>)
        requires
            old(buf)@.len() == 0,
        ensures
            final(buf)@ == self.categories_of(c),
            self.wf() ==> forall|k: int| 0 <= k < final(buf)@.len() ==> (#[trigger] final(buf)@[k]).0
                < self.category_definitions@.len(),
    {
        let n = self.mapping.len();
        let mut k: usize = 0;
        while k < n
            invariant
                n == self.mapping@.len(),
                k <= n,
                buf@ == matching_categories(self.mapping_view(), c, k as nat),
                self.wf() ==> forall|q: int| 0 <= q < buf@.len() ==> (#[trigger] buf@[q]).0
                    < self.category_definitions@.len(),
            decreases n - k,
        {
            let (start, stop, ref category_ids) = self.mapping[k];
            proof {
                assert(category_ids@ == self.mapping@[k as int].2@);
                assert(self.mapping_view()[k as int] == (start, stop, category_ids@));
            }
            if start <= c && stop >= c {
                let ghost a = buf@;
                let m = category_ids.len();
                let mut j: usize = 0;
                while j < m
                    invariant
                        m == category_ids@.len(),
                        j <= m,
                        buf@ == add_unique(a, category_ids@.subrange(0, j as int)),
                        k < n,
                        n == self.mapping@.len(),
                        category_ids@ == self.mapping@[k as int].2@,
                        self.wf() ==> forall|q: int| 0 <= q < buf@.len() ==> (#[trigger] buf@[q]).0
                            < self.category_definitions@.len(),
                    decreases m - j,
                {
                    let cat = category_ids[j];
                    proof {
                        if self.wf() {
                            assert(self.mapping@[k as int].2@[j as int] == cat);
                        }
                    }
                    let present = contains_category(buf, cat);
                    proof {
                        let s = category_ids@.subrange(0, j as int + 1);
                        assert(s.drop_last() =~= category_ids@.subrange(0, j as int));
                        assert(s.last() == cat);
                    }
                    if !present {
                        buf.push(cat);
                    }
                    j = j + 1;
                }
                proof {
                    assert(category_ids@.subrange(0, m as int) =~= category_ids@);
                }
            }
            k = k + 1;
        }
        if buf.len() == 0 {
            buf.push(self.default_category[0]);
            proof {
                assert(buf@ =~= seq![self.default_category[0]]);
            }
        }
    }

    /// Whether code point `c` belongs to category `cat`.
    pub fn has_category(&self, c: u32, cat: CategoryId) -> (r: bool)
        ensures
            r == self.categories_of(c).contains(cat),
    {
        let mut buf: Vec<CategoryId> = Vec::new();
        self.lookup_code_point(c, &mut buf);
        contains_category(&buf, cat)
    }
}

/// Whether `cat` is among `ids`.
pub fn contains_category(ids: &Vec<CategoryId>, cat: CategoryId) -> (r: bool)
    ensures
        r == ids@.contains(cat),
{
    let mut i: usize = 0;
    while i < ids.len()
        invariant
            i <= ids@.len(),
            forall|j: int| 0 <= j < i ==> ids@[j] != cat,
        decreases ids@.len() - i,
    {
        if ids[i] == cat {
            assert(ids@[i as int] == cat);
            return true;
        }
        i = i + 1;
    }
    false
}

} // verus!
