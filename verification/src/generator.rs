//! Random workload generation over the fixed catalog.
//!
//! Each student draws a non-empty random subset of the catalog's courses and
//! gives every drawn course a priority `tier * 10000 + tiebreak`, with the
//! tier in 1..=5 and the tiebreak in 0..=9999, sorted ascending.  Randomness
//! lives entirely here; the matching engine itself is deterministic.

use vstd::prelude::*;
use rand::Rng;
use rand::seq::IteratorRandom;
use crate::catalog::{CatView, cat_has, cap_sum, courses, fixed_catalog};
use crate::engine::{Preferences, StudentPref, pend_insert};
use crate::model::{PrefView, pend_has, pend_lookup, pend_wf};
use crate::prefsort::{
    lemma_distinct_from_counts, lemma_name_count_at, lemma_sort_asc_count, lemma_sort_asc_len,
    lemma_sort_asc_mem, lemma_sort_asc_sorted, pref_distinct, pref_sorted_asc, sort_asc_spec,
    sort_pref_asc,
};

verus! {

/// Declares rand's thread-local generator handle so it can cross verified
/// signatures; its inside stays opaque.
#[verifier::external_type_specification]
#[verifier::external_body]
pub struct ExThreadRng(rand::rngs::ThreadRng);

/// Relies on rand::thread_rng: a handle to the thread-local generator.
/// Nothing can be promised of the values it will produce.
pub assume_specification[ rand::thread_rng ]() -> rand::rngs::ThreadRng;

/// What one generated preference list always satisfies, whatever the random
/// draws were: non-empty, no larger than the catalog, every entry a catalog
/// course with a priority in 10000..=59999, no repeated course, ascending.
pub open spec fn student_pref_ok(p: PrefView, c: CatView) -> bool {
    &&& 1 <= p.len() <= c.len()
    &&& forall|i: int| 0 <= i < p.len() ==> cat_has(c, p[i].0) && 10000 <= p[i].1 <= 59999
    &&& pref_distinct(p)
    &&& pref_sorted_asc(p)
}

/// Relies on rand::Rng::gen_range on an inclusive range: it panics only on
/// an empty range and returns a value inside the range.
#[verifier::external_body]
fn rand_in_range(rng: &mut rand::rngs::ThreadRng, lo: u32, hi: u32) -> (r: u32)
    requires
        lo <= hi,
    ensures
        lo <= r <= hi,
{
    rng.gen_range(lo..=hi)
}

/// Relies on rand::seq::IteratorRandom::choose_multiple (reservoir
/// sampling): with `amount` no larger than the iterator's length it returns
/// exactly `amount` items, each taken from a distinct position of the
/// iterator, so distinct inputs give distinct outputs.
#[verifier::external_body]
fn choose_names(names: &Vec<String>, rng: &mut rand::rngs::ThreadRng, amount: usize) -> (r: Vec<
    String,
>)
    requires
        amount <= names.len(),
    ensures
        r.deep_view().len() == amount,
        forall|i: int|
            0 <= i < r.deep_view().len() ==> (exists|j: int|
                0 <= j < names.deep_view().len() && #[trigger] r.deep_view()[i]
                    == #[trigger] names.deep_view()[j]),
        (forall|j1: int, j2: int|
            0 <= j1 < j2 < names.deep_view().len() ==> names.deep_view()[j1]
                != names.deep_view()[j2]) ==> (forall|i1: int, i2: int|
            0 <= i1 < i2 < r.deep_view().len() ==> r.deep_view()[i1] != r.deep_view()[i2]),
{
    names.iter().cloned().choose_multiple(rng, amount)
}

/// Generates one student's preference list over the fixed catalog.
pub fn generate_student() -> (r: StudentPref)
    ensures
        student_pref_ok(r.deep_view(), fixed_catalog()),
{
    let ghost cv = fixed_catalog();
    let mut rng = rand::thread_rng();
    let course_map = courses();
    let mut names: Vec<String> = Vec::new();
    let mut i: usize = 0;
    while i < course_map.len()
        invariant
            cv == fixed_catalog(),
            course_map.deep_view() == cv,
            0 <= i <= course_map@.len(),
            course_map.deep_view().len() == course_map@.len(),
            names.deep_view().len() == i,
            names@.len() == i,
            forall|k: int| 0 <= k < i ==> names.deep_view()[k] == cv[k].0,
        decreases course_map@.len() - i,
    {
        let ghost n0 = names@;
        let ghost d0 = names.deep_view();
        names.push(course_map[i].0.as_str().to_owned());
        i += 1;
        proof {
            assert forall|k: int| 0 <= k < i implies names.deep_view()[k] == cv[k].0 by {
                assert(names.deep_view()[k] == names@[k]@);
                assert(cv[k] == (course_map@[k].0@, course_map@[k].1));
                if k < i - 1 {
                    assert(names@[k] == n0[k]);
                    assert(d0[k] == n0[k]@);
                    assert(d0[k] == cv[k].0);
                } else {
                    assert(names@[k]@ == course_map@[k].0@);
                }
            }
        }
    }
    proof {
        reveal_strlit("A");
        reveal_strlit("B");
        reveal_strlit("C");
        reveal_strlit("D");
        assert("A"@[0] == 'A' && "B"@[0] == 'B' && "C"@[0] == 'C' && "D"@[0] == 'D');
        assert(forall|j1: int, j2: int|
            0 <= j1 < j2 < names.deep_view().len() ==> names.deep_view()[j1]
                != names.deep_view()[j2]);
    }
    let num = rand_in_range(&mut rng, 1, names.len() as u32) as usize;
    let selected = choose_names(&names, &mut rng, num);
    let ghost sv = selected.deep_view();
    let mut pref: StudentPref = Vec::new();
    let mut k: usize = 0;
    while k < selected.len()
        invariant
            sv == selected.deep_view(),
            sv.len() == selected@.len(),
            0 <= k <= selected@.len(),
            pref.deep_view().len() == k,
            pref@.len() == k,
            forall|t: int|
                0 <= t < k ==> pref.deep_view()[t].0 == sv[t] && 10000 <= pref.deep_view()[t].1
                    <= 59999,
        decreases selected@.len() - k,
    {
        let ghost p0 = pref@;
        let ghost dp0 = pref.deep_view();
        let tier = rand_in_range(&mut rng, 1, 5);
        let tie = rand_in_range(&mut rng, 0, 9999);
        let name = selected[k].as_str().to_owned();
        pref.push((name, tier * 10000 + tie));
        k += 1;
        proof {
            assert forall|t: int|
                0 <= t < k implies pref.deep_view()[t].0 == sv[t]
                    && 10000 <= pref.deep_view()[t].1 <= 59999 by {
                assert(pref.deep_view()[t] == (pref@[t].0@, pref@[t].1));
                if t < k - 1 {
                    assert(pref@[t] == p0[t]);
                    assert(dp0[t] == (p0[t].0@, p0[t].1));
                    assert(dp0[t].0 == sv[t] && 10000 <= dp0[t].1 <= 59999);
                } else {
                    assert(sv[t] == selected@[t]@);
                    assert(pref@[t].0@ == selected@[t]@);
                }
            }
        }
    }
    let ghost pd = pref.deep_view();
    let sorted = sort_pref_asc(pref);
    proof {
        let sd = sort_asc_spec(pd);
        lemma_sort_asc_len(pd);
        lemma_sort_asc_sorted(pd);
        assert(pref_distinct(pd)) by {
            assert forall|a: int, b: int| 0 <= a < b < pd.len() implies pd[a].0 != pd[b].0 by {
                assert(pd[a].0 == sv[a] && pd[b].0 == sv[b]);
            }
        }
        assert forall|name: Seq<char>| #[trigger]
            crate::prefsort::name_count(sd, name) == crate::prefsort::name_count(pd, name) by {
            lemma_sort_asc_count(pd, name);
        }
        lemma_distinct_from_counts(pd, sd);
        assert forall|t: int|
            0 <= t < sd.len() implies cat_has(cv, sd[t].0) && 10000 <= sd[t].1 <= 59999 by {
            assert(sd.contains(sd[t]));
            lemma_sort_asc_mem(pd, sd[t]);
            let u = choose|u: int| 0 <= u < pd.len() && pd[u] == sd[t];
            assert(pd[u].0 == sv[u]);
            let j = choose|j: int| 0 <= j < names.deep_view().len() && sv[u] == names.deep_view()[j];
            assert(names.deep_view()[j] == cv[j].0);
            assert(cat_has(cv, sd[t].0));
        }
        assert(student_pref_ok(sorted.deep_view(), fixed_catalog()));
    }
    sorted
}

/// Fills the pool with students 1 up to (excluding) the catalog's seat
/// count, each with a freshly generated preference list.  Entries already in
/// the pool outside that identifier range stay as they are.
pub fn generate_students(preferences: &mut Preferences)
    requires
        pend_wf(old(preferences).deep_view()),
    ensures
        pend_wf(final(preferences).deep_view()),
        forall|x: u32|
            pend_has(final(preferences).deep_view(), x) <==> (pend_has(
                old(preferences).deep_view(),
                x,
            ) || (1 <= x < cap_sum(fixed_catalog()))),
        forall|x: u32|
            1 <= x < cap_sum(fixed_catalog()) ==> student_pref_ok(
                pend_lookup(final(preferences).deep_view(), x),
                fixed_catalog(),
            ),
        forall|x: u32|
            !(1 <= x < cap_sum(fixed_catalog())) ==> pend_lookup(
                final(preferences).deep_view(),
                x,
            ) == pend_lookup(old(preferences).deep_view(), x),
{
    let ghost cv = fixed_catalog();
    let ghost dv0 = preferences.deep_view();
    let course_map = courses();
    let mut total: u32 = 0;
    let mut i: usize = course_map.len();
    while i > 0
        invariant
            cv == fixed_catalog(),
            course_map.deep_view() == cv,
            cv.len() == 4,
            course_map@.len() == 4,
            0 <= i <= 4,
            total as int <= 255 * (4 - i as int),
            total as int == cap_sum(cv.subrange(i as int, 4)),
        decreases i,
    {
        i -= 1;
        proof {
            let sub = cv.subrange(i as int, 4);
            assert(sub[0] == cv[i as int]);
            assert(sub.drop_first() =~= cv.subrange(i + 1, 4));
            assert(course_map.deep_view()[i as int] == (course_map@[i as int].0@,
            course_map@[i as int].1));
        }
        total = total + course_map[i].1 as u32;
    }
    proof {
        assert(cv.subrange(0, 4) =~= cv);
        assert(total as int == cap_sum(cv));
    }
    let mut id: u32 = 1;
    while id < total
        invariant
            cv == fixed_catalog(),
            total as int == cap_sum(cv),
            1 <= id <= total || (id == 1 && total < 1),
            dv0 == old(preferences).deep_view(),
            pend_wf(dv0),
            pend_wf(preferences.deep_view()),
            forall|x: u32|
                pend_has(preferences.deep_view(), x) <==> (pend_has(dv0, x) || (1 <= x < id)),
            forall|x: u32|
                1 <= x < id ==> student_pref_ok(
                    pend_lookup(preferences.deep_view(), x),
                    fixed_catalog(),
                ),
            forall|x: u32|
                !(1 <= x < id) ==> pend_lookup(preferences.deep_view(), x) == pend_lookup(
                    dv0,
                    x,
                ),
        decreases total - id,
    {
        let student = generate_student();
        pend_insert(preferences, id, student);
        id += 1;
    }
}

} // verus!
