//! The catalog of slots: course names and their capacities.

use vstd::prelude::*;

verus! {

/// A catalog is an association list from course name to capacity.
/// Well-formedness ([`cat_wf`]) asks for distinct names and positive
/// capacities.
pub type Catalog = Vec<(String, u8)>;

/// The catalog as a mathematical value: a sequence of (name, capacity) pairs.
pub type CatView = Seq<(Seq<char>, u8)>;

/// Distinct course names, every capacity positive.
pub open spec fn cat_wf(c: CatView) -> bool {
    &&& forall|i: int, j: int| 0 <= i < j < c.len() ==> c[i].0 != c[j].0
    &&& forall|i: int| 0 <= i < c.len() ==> c[i].1 > 0
}

/// Whether the catalog declares a course of the given name.
pub open spec fn cat_has(c: CatView, name: Seq<char>) -> bool {
    exists|i: int| 0 <= i < c.len() && c[i].0 == name
}

/// The capacity of the first (hence, under [`cat_wf`], the only) entry of the
/// given name; 0 when the name is absent.
pub open spec fn cat_cap(c: CatView, name: Seq<char>) -> u8
    decreases c.len(),
{
    if c.len() == 0 {
        0
    } else if c[0].0 == name {
        c[0].1
    } else {
        cat_cap(c.drop_first(), name)
    }
}

/// The capacity found by the recursive lookup is the capacity of some entry
/// of that name.
pub proof fn lemma_cat_cap_entry(c: CatView, name: Seq<char>)
    requires
        cat_has(c, name),
    ensures
        exists|i: int| 0 <= i < c.len() && c[i].0 == name && c[i].1 == cat_cap(c, name),
    decreases c.len(),
{
    if c.len() > 0 && c[0].0 != name {
        assert(cat_has(c.drop_first(), name)) by {
            let i = choose|i: int| 0 <= i < c.len() && c[i].0 == name;
            assert(c.drop_first()[i - 1].0 == name);
        }
        lemma_cat_cap_entry(c.drop_first(), name);
        let i = choose|i: int|
            0 <= i < c.drop_first().len() && c.drop_first()[i].0 == name && c.drop_first()[i].1
                == cat_cap(c.drop_first(), name);
        assert(c[i + 1].0 == name && c[i + 1].1 == cat_cap(c, name));
    }
}

/// Compares two strings character for character.
///
/// Relies on `str`'s `PartialEq`: two string slices are equal exactly when
/// they hold the same characters.
#[verifier::external_body]
pub(crate) fn str_eq(a: &str, b: &str) -> (r: bool)
    ensures
        r == (a@ == b@),
{
    a == b
}

/// Looks a course up in the catalog: its capacity, or `None` when the name
/// was never declared.
pub fn catalog_capacity(cat: &Catalog, name: &str) -> (r: Option<u8>)
    ensures
        match r {
            Some(cap) => cat_has(cat.deep_view(), name@) && cap == cat_cap(cat.deep_view(), name@),
            None => !cat_has(cat.deep_view(), name@),
        },
{
    let ghost cv = cat.deep_view();
    let mut i: usize = 0;
    while i < cat.len()
        invariant
            0 <= i <= cat.len(),
            cv == cat.deep_view(),
            cv.len() == cat.len(),
            forall|k: int| 0 <= k < cv.len() ==> cv[k] == (cat@[k].0@, cat@[k].1),
            forall|k: int| 0 <= k < i ==> cv[k].0 != name@,
        decreases cat.len() - i,
    {
        if str_eq(cat[i].0.as_str(), name) {
            proof {
                lemma_cat_cap_first_hit(cv, name@, i as int);
            }
            return Some(cat[i].1);
        }
        i += 1;
    }
    None
}

/// When every entry before `i` misses and entry `i` hits, the recursive
/// lookup returns entry `i`'s capacity.
proof fn lemma_cat_cap_first_hit(c: CatView, name: Seq<char>, i: int)
    requires
        0 <= i < c.len(),
        c[i].0 == name,
        forall|k: int| 0 <= k < i ==> c[k].0 != name,
    ensures
        cat_has(c, name),
        cat_cap(c, name) == c[i].1,
    decreases i,
{
    if i > 0 {
        assert(forall|k: int| 0 <= k < i - 1 ==> c.drop_first()[k] == c[k + 1]);
        assert(c.drop_first()[i - 1] == c[i]);
        lemma_cat_cap_first_hit(c.drop_first(), name, i - 1);
    }
}

/// The fixed catalog as a mathematical value.
pub open spec fn fixed_catalog() -> CatView {
    seq![("A"@, 2u8), ("B"@, 2u8), ("C"@, 3u8), ("D"@, 1u8)]
}

/// The total number of seats a catalog offers.
pub open spec fn cap_sum(c: CatView) -> int
    decreases c.len(),
{
    if c.len() == 0 {
        0
    } else {
        c[0].1 + cap_sum(c.drop_first())
    }
}

/// The fixed catalog this tool ships with: four courses, eight seats.
pub fn courses() -> (r: Catalog)
    ensures
        r.deep_view() == fixed_catalog(),
        cat_wf(r.deep_view()),
{
    proof {
        reveal_strlit("A");
        reveal_strlit("B");
        reveal_strlit("C");
        reveal_strlit("D");
    }
    let mut r: Catalog = Vec::new();
    r.push(("A".to_owned(), 2));
    r.push(("B".to_owned(), 2));
    r.push(("C".to_owned(), 3));
    r.push(("D".to_owned(), 1));
    proof {
        assert(r.deep_view() =~= fixed_catalog());
        assert("A"@[0] == 'A' && "B"@[0] == 'B' && "C"@[0] == 'C' && "D"@[0] == 'D');
        assert(cat_wf(r.deep_view()));
    }
    r
}

} // verus!
