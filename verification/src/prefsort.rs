//! Ascending sort of a preference list.
//!
//! A student's preference list holds `(course, priority)` pairs and is kept
//! ascending by priority, so the best untried entry is always the last
//! element.  [`sort_asc_spec`] is the mathematical sort; [`sort_pref_asc`]
//! computes exactly it.

use vstd::prelude::*;
use crate::model::PrefView;

verus! {

/// Ascending by priority (ties allowed).
pub open spec fn pref_sorted_asc(p: PrefView) -> bool {
    forall|i: int, j: int| 0 <= i < j < p.len() ==> p[i].1 <= p[j].1
}

/// No course appears twice.
pub open spec fn pref_distinct(p: PrefView) -> bool {
    forall|i: int, j: int| 0 <= i < j < p.len() ==> p[i].0 != p[j].0
}

/// Ascending insertion: `e` goes in front of the first element whose
/// priority is at least `e`'s.
pub open spec fn insert_asc(e: (Seq<char>, u32), p: PrefView) -> PrefView
    decreases p.len(),
{
    if p.len() == 0 {
        seq![e]
    } else if p[0].1 < e.1 {
        seq![p[0]] + insert_asc(e, p.drop_first())
    } else {
        seq![e] + p
    }
}

/// Ascending insertion sort.
pub open spec fn sort_asc_spec(p: PrefView) -> PrefView
    decreases p.len(),
{
    if p.len() == 0 {
        Seq::<(Seq<char>, u32)>::empty()
    } else {
        insert_asc(p[0], sort_asc_spec(p.drop_first()))
    }
}

/// How often a course name occurs in the list.
pub open spec fn name_count(p: PrefView, name: Seq<char>) -> nat
    decreases p.len(),
{
    if p.len() == 0 {
        0
    } else {
        (if p[0].0 == name {
            1nat
        } else {
            0nat
        }) + name_count(p.drop_first(), name)
    }
}

pub proof fn lemma_insert_asc_len(e: (Seq<char>, u32), p: PrefView)
    ensures
        insert_asc(e, p).len() == p.len() + 1,
    decreases p.len(),
{
    if p.len() > 0 && p[0].1 < e.1 {
        lemma_insert_asc_len(e, p.drop_first());
    }
}

/// An element sits in `[h] + t` exactly when it is `h` or sits in `t`.
proof fn lemma_pref_cons_contains(h: (Seq<char>, u32), t: PrefView, x: (Seq<char>, u32))
    ensures
        (seq![h] + t).contains(x) <==> (x == h || t.contains(x)),
{
    let r = seq![h] + t;
    if r.contains(x) {
        let i = choose|i: int| 0 <= i < r.len() && r[i] == x;
        if i > 0 {
            assert(t[i - 1] == x);
            assert(t.contains(x));
        }
    }
    if x == h {
        assert(r[0] == x);
        assert(r.contains(x));
    }
    if t.contains(x) {
        let i = choose|i: int| 0 <= i < t.len() && t[i] == x;
        assert(r[i + 1] == x);
        assert(r.contains(x));
    }
}

proof fn lemma_pref_uncons_contains(p: PrefView, x: (Seq<char>, u32))
    requires
        p.len() > 0,
    ensures
        p.contains(x) <==> (x == p[0] || p.drop_first().contains(x)),
{
    assert(seq![p[0]] + p.drop_first() =~= p);
    lemma_pref_cons_contains(p[0], p.drop_first(), x);
}

/// Insertion adds exactly `e` to the elements.
pub proof fn lemma_insert_asc_mem(e: (Seq<char>, u32), p: PrefView, x: (Seq<char>, u32))
    ensures
        insert_asc(e, p).contains(x) <==> (x == e || p.contains(x)),
    decreases p.len(),
{
    if p.len() == 0 {
        lemma_pref_cons_contains(e, Seq::<(Seq<char>, u32)>::empty(), x);
        assert(seq![e] + Seq::<(Seq<char>, u32)>::empty() =~= seq![e]);
    } else if p[0].1 < e.1 {
        lemma_insert_asc_mem(e, p.drop_first(), x);
        lemma_pref_cons_contains(p[0], insert_asc(e, p.drop_first()), x);
        lemma_pref_uncons_contains(p, x);
    } else {
        lemma_pref_cons_contains(e, p, x);
    }
}

pub proof fn lemma_insert_asc_sorted(e: (Seq<char>, u32), p: PrefView)
    requires
        pref_sorted_asc(p),
    ensures
        pref_sorted_asc(insert_asc(e, p)),
    decreases p.len(),
{
    lemma_insert_asc_len(e, p);
    if p.len() > 0 && p[0].1 < e.1 {
        assert(pref_sorted_asc(p.drop_first()));
        lemma_insert_asc_sorted(e, p.drop_first());
        let t = insert_asc(e, p.drop_first());
        let r = seq![p[0]] + t;
        assert forall|i: int, j: int| 0 <= i < j < r.len() implies r[i].1 <= r[j].1 by {
            if i == 0 {
                assert(t.contains(t[j - 1])) by {
                    assert(0 <= j - 1 < t.len());
                }
                lemma_insert_asc_mem(e, p.drop_first(), t[j - 1]);
            }
        }
    }
}

pub proof fn lemma_insert_asc_count(e: (Seq<char>, u32), p: PrefView, name: Seq<char>)
    ensures
        name_count(insert_asc(e, p), name) == name_count(p, name) + (if e.0 == name {
            1nat
        } else {
            0nat
        }),
    decreases p.len(),
{
    if p.len() == 0 {
        let r = seq![e];
        assert(insert_asc(e, p) == r);
        assert(r[0] == e);
        assert(r.drop_first() =~= Seq::<(Seq<char>, u32)>::empty());
        assert(name_count(r, name) == (if e.0 == name {
            1nat
        } else {
            0nat
        }) + name_count(r.drop_first(), name));
    } else if p[0].1 < e.1 {
        lemma_insert_asc_count(e, p.drop_first(), name);
        let r = seq![p[0]] + insert_asc(e, p.drop_first());
        assert(insert_asc(e, p) == r);
        assert(r.len() > 0 && r[0] == p[0]);
        assert(r.drop_first() =~= insert_asc(e, p.drop_first()));
        assert(name_count(r, name) == (if p[0].0 == name {
            1nat
        } else {
            0nat
        }) + name_count(r.drop_first(), name));
        assert(name_count(p, name) == (if p[0].0 == name {
            1nat
        } else {
            0nat
        }) + name_count(p.drop_first(), name));
    } else {
        let r = seq![e] + p;
        assert(insert_asc(e, p) == r);
        assert(r.len() > 0 && r[0] == e);
        assert(r.drop_first() =~= p);
        assert(name_count(r, name) == (if e.0 == name {
            1nat
        } else {
            0nat
        }) + name_count(r.drop_first(), name));
    }
}

pub proof fn lemma_sort_asc_len(p: PrefView)
    ensures
        sort_asc_spec(p).len() == p.len(),
    decreases p.len(),
{
    if p.len() > 0 {
        lemma_sort_asc_len(p.drop_first());
        lemma_insert_asc_len(p[0], sort_asc_spec(p.drop_first()));
    }
}

pub proof fn lemma_sort_asc_sorted(p: PrefView)
    ensures
        pref_sorted_asc(sort_asc_spec(p)),
    decreases p.len(),
{
    if p.len() > 0 {
        lemma_sort_asc_sorted(p.drop_first());
        lemma_insert_asc_sorted(p[0], sort_asc_spec(p.drop_first()));
    }
}

/// Sorting keeps exactly the original elements.
pub proof fn lemma_sort_asc_mem(p: PrefView, x: (Seq<char>, u32))
    ensures
        sort_asc_spec(p).contains(x) <==> p.contains(x),
    decreases p.len(),
{
    if p.len() == 0 {
        if sort_asc_spec(p).contains(x) {
            let i = choose|i: int| 0 <= i < sort_asc_spec(p).len() && sort_asc_spec(p)[i] == x;
        }
        if p.contains(x) {
            let i = choose|i: int| 0 <= i < p.len() && p[i] == x;
        }
    } else {
        lemma_sort_asc_mem(p.drop_first(), x);
        lemma_insert_asc_mem(p[0], sort_asc_spec(p.drop_first()), x);
        lemma_pref_uncons_contains(p, x);
    }
}

pub proof fn lemma_sort_asc_count(p: PrefView, name: Seq<char>)
    ensures
        name_count(sort_asc_spec(p), name) == name_count(p, name),
    decreases p.len(),
{
    if p.len() > 0 {
        lemma_sort_asc_count(p.drop_first(), name);
        lemma_insert_asc_count(p[0], sort_asc_spec(p.drop_first()), name);
    }
}

/// A list is duplicate free exactly when no name counts twice.
pub proof fn lemma_name_count_at(p: PrefView, i: int)
    requires
        0 <= i < p.len(),
    ensures
        name_count(p, p[i].0) >= 1,
        forall|j: int| 0 <= j < p.len() && j != i && p[j].0 == p[i].0 ==> name_count(p, p[i].0) >= 2,
    decreases p.len(),
{
    if i == 0 {
        assert forall|j: int|
            0 <= j < p.len() && j != i && p[j].0 == p[i].0 implies name_count(p, p[i].0) >= 2 by {
            lemma_name_count_at(p.drop_first(), j - 1);
        }
    } else {
        assert(p.drop_first()[i - 1] == p[i]);
        lemma_name_count_at(p.drop_first(), i - 1);
        assert forall|j: int|
            0 <= j < p.len() && j != i && p[j].0 == p[i].0 implies name_count(p, p[i].0) >= 2 by {
            if j == 0 {
            } else {
                assert(p.drop_first()[j - 1] == p[j]);
            }
        }
    }
}

/// Equal name counts carry duplicate freedom from one list to another.
pub proof fn lemma_distinct_from_counts(p: PrefView, q: PrefView)
    requires
        pref_distinct(p),
        forall|name: Seq<char>| #[trigger] name_count(q, name) == name_count(p, name),
    ensures
        pref_distinct(q),
{
    assert forall|i: int, j: int| 0 <= i < j < q.len() implies q[i].0 != q[j].0 by {
        if q[i].0 == q[j].0 {
            lemma_name_count_at(q, i);
            assert(name_count(q, q[i].0) >= 2);
            assert(name_count(p, q[i].0) >= 2);
            lemma_count_two_dup(p, q[i].0);
            let (a, b) = choose|a: int, b: int|
                0 <= a < b < p.len() && p[a].0 == q[i].0 && p[b].0 == q[i].0;
            assert(p[a].0 != p[b].0);
        }
    }
}

/// A name that counts twice occurs at two positions.
proof fn lemma_count_two_dup(p: PrefView, name: Seq<char>)
    requires
        name_count(p, name) >= 2,
    ensures
        exists|a: int, b: int| 0 <= a < b < p.len() && p[a].0 == name && p[b].0 == name,
    decreases p.len(),
{
    if p.len() > 0 {
        if p[0].0 == name {
            assert(name_count(p.drop_first(), name) >= 1);
            lemma_count_one_at(p.drop_first(), name);
            let i = choose|i: int|
                0 <= i < p.drop_first().len() && p.drop_first()[i].0 == name;
            assert(p[i + 1].0 == name);
            assert(0 <= 0 < i + 1 < p.len() && p[0].0 == name && p[i + 1].0 == name);
        } else {
            assert(name_count(p.drop_first(), name) >= 2);
            lemma_count_two_dup(p.drop_first(), name);
            let (a, b) = choose|a: int, b: int|
                0 <= a < b < p.drop_first().len() && p.drop_first()[a].0 == name
                    && p.drop_first()[b].0 == name;
            assert(p[a + 1].0 == name && p[b + 1].0 == name);
        }
    }
}

/// A name that counts at least once occurs somewhere.
proof fn lemma_count_one_at(p: PrefView, name: Seq<char>)
    requires
        name_count(p, name) >= 1,
    ensures
        exists|i: int| 0 <= i < p.len() && p[i].0 == name,
    decreases p.len(),
{
    if p.len() > 0 {
        if p[0].0 == name {
        } else {
            lemma_count_one_at(p.drop_first(), name);
            let i = choose|i: int|
                0 <= i < p.drop_first().len() && p.drop_first()[i].0 == name;
            assert(p[i + 1].0 == name);
        }
    }
}

/// Inserting at the position the scan found matches the recursive insertion.
proof fn lemma_insert_asc_at(e: (Seq<char>, u32), p: PrefView, i: int)
    requires
        0 <= i <= p.len(),
        forall|k: int| 0 <= k < i ==> p[k].1 < e.1,
        i < p.len() ==> p[i].1 >= e.1,
    ensures
        insert_asc(e, p) == p.insert(i, e),
    decreases i,
{
    if p.len() == 0 {
        assert(insert_asc(e, p) =~= p.insert(0, e));
    } else if i == 0 {
        assert(seq![e] + p =~= p.insert(0, e));
    } else {
        assert(p[0].1 < e.1);
        lemma_insert_asc_at(e, p.drop_first(), i - 1);
        assert(seq![p[0]] + p.drop_first().insert(i - 1, e) =~= p.insert(i, e));
    }
}

/// Inserts one entry into an ascending list, keeping it ascending.
fn insert_pref_sorted(acc: &mut Vec<(String, u32)>, e: (String, u32))
    requires
        pref_sorted_asc(old(acc).deep_view()),
    ensures
        final(acc).deep_view() == insert_asc((e.0@, e.1), old(acc).deep_view()),
{
    let ghost dv0 = acc.deep_view();
    let ghost ev = (e.0@, e.1);
    let mut i: usize = 0;
    while i < acc.len() && acc[i].1 < e.1
        invariant
            0 <= i <= acc@.len(),
            acc.deep_view() == dv0,
            dv0.len() == acc@.len(),
            ev.1 == e.1,
            forall|k: int| 0 <= k < dv0.len() ==> dv0[k].1 == acc@[k].1,
            forall|k: int| 0 <= k < i ==> dv0[k].1 < ev.1,
        decreases acc@.len() - i,
    {
        i += 1;
    }
    proof {
        assert(i < acc@.len() ==> dv0[i as int].1 >= ev.1);
    }
    proof {
        lemma_insert_asc_at(ev, dv0, i as int);
    }
    acc.insert(i, e);
    proof {
        assert(acc.deep_view() =~~= dv0.insert(i as int, ev));
    }
}

/// Sorts a preference list ascending by priority: the result is exactly
/// [`sort_asc_spec`] of the input.
pub fn sort_pref_asc(v: Vec<(String, u32)>) -> (r: Vec<(String, u32)>)
    ensures
        r.deep_view() == sort_asc_spec(v.deep_view()),
{
    let ghost vd = v.deep_view();
    let mut v = v;
    let mut acc: Vec<(String, u32)> = Vec::new();
    proof {
        assert(vd.subrange(v@.len() as int, vd.len() as int) =~= Seq::<(Seq<char>, u32)>::empty());
    }
    while v.len() > 0
        invariant
            v@.len() <= vd.len(),
            v.deep_view() =~~= vd.subrange(0, v@.len() as int),
            pref_sorted_asc(acc.deep_view()),
            acc.deep_view() == sort_asc_spec(vd.subrange(v@.len() as int, vd.len() as int)),
        decreases v@.len(),
    {
        let ghost l = v@.len() as int;
        let ghost dprev = v.deep_view();
        let ghost vprev = v@;
        let e = v.pop().unwrap();
        proof {
            assert(v.deep_view() =~~= vd.subrange(0, l - 1));
            assert(dprev[l - 1] == vprev[l - 1].deep_view());
            assert((e.0@, e.1) == vd[l - 1]);
            let sub = vd.subrange(l - 1, vd.len() as int);
            assert(sub[0] == vd[l - 1]);
            assert(sub.drop_first() =~= vd.subrange(l, vd.len() as int));
        }
        let ghost pre = acc.deep_view();
        insert_pref_sorted(&mut acc, e);
        proof {
            lemma_insert_asc_sorted(vd[l - 1], pre);
        }
    }
    proof {
        assert(vd.subrange(0, vd.len() as int) =~= vd);
    }
    acc
}

} // verus!
