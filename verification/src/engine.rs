//! The deferred-acceptance matching engine.
//!
//! [`proposing`] consumes the pending pool: it dequeues the pending student
//! with the lowest identifier, pops their highest-priority untried course,
//! and either accepts them, rejects them (they re-queue with the rest of
//! their list), or lets them displace the weakest accepted entrant of a full
//! course — who re-queues with their *full original* list (the engine's
//! displacement requeue policy is full-reset, not resume-remaining).

use vstd::prelude::*;
use crate::catalog::{Catalog, CatView, cat_cap, cat_has, cat_wf, catalog_capacity, str_eq};
use crate::model::{
    MatchView, PendView, PrefView, lemma_id_count_at, lemma_id_count_drop_last,
    lemma_id_count_push, lemma_pend_lookup_at, lemma_pend_work_insert,
    lemma_score_room_drop_last, lemma_score_room_push, lemma_score_room_sort,
    lemma_total_count_at, lemma_total_count_update, lemma_total_pot_nonneg,
    lemma_total_pot_update, lemma_spec_pend_insert_at, lemma_spec_pend_insert_work,
    lemma_ucount_contains, lemma_ucount_push, pend01, pend_has, pend_idx, pend_lookup, pend_wf,
    pend_work, score_room, slot_pot, spec_pend_insert, total_count, total_pot, ucount,
};
use crate::sorting::{
    Accepted, lemma_sort_desc_contains, lemma_sort_desc_count, lemma_sort_desc_len,
    lemma_sort_desc_sorted, sort_desc, sort_desc_spec, sorted_desc,
};

verus! {

/// One student's ranked preference list, ascending by priority.
pub type StudentPref = Vec<(String, u32)>;

/// The pending pool: students and their remaining preferences, kept
/// strictly ascending by student identifier.
pub type Preferences = Vec<(u32, StudentPref)>;

/// The assignment under construction: per course, the accepted entrants,
/// kept sorted descending by priority.
pub type Matchings = Vec<(String, Vec<(u32, u32)>)>;

/// The one fatal failure: a preference list names a course the catalog never
/// declared.
#[derive(Debug, Clone, PartialEq, Eq)]
pub enum MatchError {
    UnknownSlot(String),
}

/// The assignment's course names sit in the catalog's order.
pub open spec fn names_match(m: MatchView, c: CatView) -> bool {
    &&& m.len() == c.len()
    &&& forall|k: int| 0 <= k < m.len() ==> m[k].0 == c[k].0
}

/// No course holds more entrants than its capacity.
pub open spec fn caps_ok(m: MatchView, c: CatView) -> bool {
    forall|k: int| 0 <= k < m.len() ==> m[k].1.len() <= cat_cap(c, m[k].0)
}

/// Every course's list is sorted descending by priority.
pub open spec fn all_sorted(m: MatchView) -> bool {
    forall|k: int| 0 <= k < m.len() ==> sorted_desc(m[k].1)
}

/// The preference entry `pe` cannot get in: its course is full and every
/// accepted entrant there has at least `pe`'s priority.
pub open spec fn entry_blocked(m: MatchView, c: CatView, pe: (Seq<char>, u32)) -> bool {
    exists|k: int|
        0 <= k < m.len() && #[trigger] m[k].0 == pe.0 && m[k].1.len() == cat_cap(c, pe.0)
            && (forall|i: int| 0 <= i < m[k].1.len() ==> m[k].1[i].1 >= pe.1)
}

/// A pending entry's remaining list is a prefix of that student's original
/// list, and every already-tried entry is blocked.
pub open spec fn pending_entry_ok(bv: PendView, c: CatView, m: MatchView, pe: (u32, PrefView)) -> bool {
    let bl = pend_lookup(bv, pe.0);
    &&& pend_has(bv, pe.0)
    &&& pe.1.len() <= bl.len()
    &&& pe.1 == bl.subrange(0, pe.1.len() as int)
    &&& forall|e: int| pe.1.len() <= e < bl.len() ==> entry_blocked(m, c, bl[e])
}

/// An unmatched student tried everything: every entry of their original
/// list is blocked.
pub open spec fn unmatched_ok(bv: PendView, c: CatView, m: MatchView, id: u32) -> bool {
    let bl = pend_lookup(bv, id);
    &&& pend_has(bv, id)
    &&& forall|e: int| 0 <= e < bl.len() ==> entry_blocked(m, c, bl[e])
}

/// An accepted entrant was accepted at a course and priority taken from
/// their own original preference list.
pub open spec fn accepted_ok(bv: PendView, name: Seq<char>, a: Accepted) -> bool {
    let bl = pend_lookup(bv, a.0);
    &&& pend_has(bv, a.0)
    &&& exists|e: int| 0 <= e < bl.len() && #[trigger] bl[e].0 == name && bl[e].1 == a.1
}

/// Copies one preference list.
pub fn clone_pref(v: &StudentPref) -> (r: StudentPref)
    ensures
        r.deep_view() == v.deep_view(),
{
    let mut r: StudentPref = Vec::new();
    let mut i: usize = 0;
    while i < v.len()
        invariant
            0 <= i <= v@.len(),
            v.deep_view().len() == v@.len(),
            r@.len() == i,
            forall|k: int| 0 <= k < i ==> r.deep_view()[k] == v.deep_view()[k],
        decreases v@.len() - i,
    {
        let ghost r0 = r@;
        let name = v[i].0.as_str().to_owned();
        r.push((name, v[i].1));
        i += 1;
        proof {
            assert(r@ == r0.push((name, v@[i - 1].1)));
            assert forall|k: int| 0 <= k < i implies r.deep_view()[k] == v.deep_view()[k] by {
                assert(r.deep_view()[k] == r@[k].deep_view());
                if k < i - 1 {
                    assert(r@[k] == r0[k]);
                } else {
                    assert(r@[k].0@ == v@[k].0@ && r@[k].1 == v@[k].1);
                }
            }
        }
    }
    proof {
        assert(r.deep_view() =~~= v.deep_view());
    }
    r
}

/// Copies the whole pending pool (the engine's backup snapshot).
pub fn clone_pending(p: &Preferences) -> (r: Preferences)
    ensures
        r.deep_view() == p.deep_view(),
{
    let mut r: Preferences = Vec::new();
    let mut i: usize = 0;
    while i < p.len()
        invariant
            0 <= i <= p@.len(),
            p.deep_view().len() == p@.len(),
            r@.len() == i,
            forall|k: int| 0 <= k < i ==> r.deep_view()[k] == p.deep_view()[k],
        decreases p@.len() - i,
    {
        let ghost r0 = r@;
        let pref = clone_pref(&p[i].1);
        r.push((p[i].0, pref));
        i += 1;
        proof {
            assert forall|k: int| 0 <= k < i implies r.deep_view()[k] == p.deep_view()[k] by {
                assert(r.deep_view()[k] == r@[k].deep_view());
                if k < i - 1 {
                    assert(r@[k] == r0[k]);
                } else {
                    assert(r@[k].0 == p@[k].0 && r@[k].1.deep_view() == p@[k].1.deep_view());
                }
            }
        }
    }
    proof {
        assert(r.deep_view() =~~= p.deep_view());
    }
    r
}

/// Inserts (or replaces) a student's entry, keeping identifiers ascending.
pub fn pend_insert(p: &mut Preferences, id: u32, pref: StudentPref)
    requires
        pend_wf(old(p).deep_view()),
    ensures
        pend_wf(final(p).deep_view()),
        forall|x: u32|
            pend_has(final(p).deep_view(), x) <==> (pend_has(old(p).deep_view(), x) || x == id),
        pend_lookup(final(p).deep_view(), id) == pref.deep_view(),
        forall|x: u32|
            x != id ==> pend_lookup(final(p).deep_view(), x) == pend_lookup(
                old(p).deep_view(),
                x,
            ),
        forall|j: int|
            0 <= j < final(p).deep_view().len() && final(p).deep_view()[j].0 != id
                ==> exists|j0: int|
                0 <= j0 < old(p).deep_view().len() && final(p).deep_view()[j] == old(p).deep_view()[j0],
        !pend_has(old(p).deep_view(), id) ==> pend_work(final(p).deep_view()) == pend_work(
            old(p).deep_view(),
        ) + pref.deep_view().len() + 1,
        final(p).deep_view() == spec_pend_insert(old(p).deep_view(), id, pref.deep_view()),
{
    let ghost dv0 = p.deep_view();
    let mut i: usize = 0;
    while i < p.len() && p[i].0 < id
        invariant
            0 <= i <= p@.len(),
            p.deep_view() == dv0,
            dv0.len() == p@.len(),
            forall|k: int| 0 <= k < i ==> dv0[k].0 < id,
        decreases p@.len() - i,
    {
        i += 1;
    }
    let ghost e = (id, pref.deep_view());
    if i < p.len() && p[i].0 == id {
        proof {
            assert(dv0[i as int].0 == id);
            assert(pend_has(dv0, id));
            lemma_spec_pend_insert_at(dv0, id, e.1, i as int);
        }
        let _dropped = p.remove(i);
        p.insert(i, (id, pref));
        proof {
            let dv = p.deep_view();
            assert(dv =~~= dv0.update(i as int, e));
            lemma_pend_upsert(dv0, dv, i as int, e, true);
        }
    } else {
        proof {
            assert(i < dv0.len() ==> dv0[i as int].0 > id);
            lemma_spec_pend_insert_at(dv0, id, e.1, i as int);
        }
        p.insert(i, (id, pref));
        proof {
            let dv = p.deep_view();
            assert(dv =~~= dv0.insert(i as int, e));
            lemma_pend_upsert(dv0, dv, i as int, e, false);
            if !pend_has(dv0, id) {
                lemma_pend_work_insert(dv0, i as int, e);
            }
        }
    }
}

/// The view-level effect of [`pend_insert`]: replacing at `i` or inserting
/// at `i` keeps the pool well formed and changes exactly the one entry.
proof fn lemma_pend_upsert(dv0: PendView, dv: PendView, i: int, e: (u32, PrefView), replace: bool)
    requires
        pend_wf(dv0),
        0 <= i <= dv0.len(),
        forall|k: int| 0 <= k < i ==> dv0[k].0 < e.0,
        replace ==> i < dv0.len() && dv0[i].0 == e.0 && dv == dv0.update(i, e),
        !replace ==> (i < dv0.len() ==> dv0[i].0 > e.0) && dv == dv0.insert(i, e),
    ensures
        pend_wf(dv),
        forall|x: u32| pend_has(dv, x) <==> (pend_has(dv0, x) || x == e.0),
        pend_lookup(dv, e.0) == e.1,
        forall|x: u32| x != e.0 ==> pend_lookup(dv, x) == pend_lookup(dv0, x),
        forall|j: int|
            0 <= j < dv.len() && dv[j].0 != e.0 ==> exists|j0: int|
                0 <= j0 < dv0.len() && dv[j] == dv0[j0],
{
    if replace {
        assert(pend_wf(dv));
        assert forall|x: u32| pend_has(dv, x) implies (pend_has(dv0, x) || x == e.0) by {
            let j = choose|j: int| 0 <= j < dv.len() && dv[j].0 == x;
            if j != i {
                assert(dv0[j].0 == x);
            }
        }
        assert forall|x: u32| pend_has(dv0, x) || x == e.0 implies pend_has(dv, x) by {
            if x == e.0 {
                assert(dv[i].0 == x);
            } else {
                let j = choose|j: int| 0 <= j < dv0.len() && dv0[j].0 == x;
                assert(j != i);
                assert(dv[j].0 == x);
            }
        }
        lemma_pend_lookup_at(dv, i);
        assert forall|x: u32| x != e.0 implies pend_lookup(dv, x) == pend_lookup(dv0, x) by {
            if pend_has(dv0, x) {
                let j = choose|j: int| 0 <= j < dv0.len() && dv0[j].0 == x;
                assert(j != i);
                assert(dv[j] == dv0[j]);
                lemma_pend_lookup_at(dv, j);
                lemma_pend_lookup_at(dv0, j);
            }
        }
        assert forall|j: int| 0 <= j < dv.len() && dv[j].0 != e.0 implies exists|j0: int|
            0 <= j0 < dv0.len() && dv[j] == dv0[j0] by {
            assert(j != i);
            assert(dv[j] == dv0[j]);
        }
    } else {
        assert forall|a: int, b: int| 0 <= a < b < dv.len() implies dv[a].0 < dv[b].0 by {
            if a < i && b == i {
            } else if a == i && b > i {
                assert(dv[b] == dv0[b - 1]);
                assert(dv0[b - 1].0 >= dv0[i].0 > e.0);
            } else if a < i && b > i {
                assert(dv[a] == dv0[a] && dv[b] == dv0[b - 1]);
                if a < b - 1 {
                } else {
                    assert(a == b - 1);
                    assert(dv0[a].0 < e.0 < dv0[i].0 <= dv0[b - 1].0);
                }
            } else if b < i {
                assert(dv[a] == dv0[a] && dv[b] == dv0[b]);
            } else if a > i {
                assert(dv[a] == dv0[a - 1] && dv[b] == dv0[b - 1]);
            }
        }
        assert forall|x: u32| pend_has(dv, x) implies (pend_has(dv0, x) || x == e.0) by {
            let j = choose|j: int| 0 <= j < dv.len() && dv[j].0 == x;
            if j < i {
                assert(dv0[j].0 == x);
            } else if j > i {
                assert(dv0[j - 1].0 == x);
            }
        }
        assert forall|x: u32| pend_has(dv0, x) || x == e.0 implies pend_has(dv, x) by {
            if x == e.0 {
                assert(dv[i].0 == x);
            } else {
                let j = choose|j: int| 0 <= j < dv0.len() && dv0[j].0 == x;
                if j < i {
                    assert(dv[j].0 == x);
                } else {
                    assert(dv[j + 1].0 == x);
                }
            }
        }
        lemma_pend_lookup_at(dv, i);
        assert forall|x: u32| x != e.0 implies pend_lookup(dv, x) == pend_lookup(dv0, x) by {
            if pend_has(dv0, x) {
                let j = choose|j: int| 0 <= j < dv0.len() && dv0[j].0 == x;
                if j < i {
                    assert(dv[j] == dv0[j]);
                    lemma_pend_lookup_at(dv, j);
                } else {
                    assert(dv[j + 1] == dv0[j]);
                    lemma_pend_lookup_at(dv, j + 1);
                }
                lemma_pend_lookup_at(dv0, j);
            }
        }
        assert forall|j: int| 0 <= j < dv.len() && dv[j].0 != e.0 implies exists|j0: int|
            0 <= j0 < dv0.len() && dv[j] == dv0[j0] by {
            assert(j != i);
            if j < i {
                assert(dv[j] == dv0[j]);
            } else {
                assert(dv[j] == dv0[j - 1]);
            }
        }
    }
}

/// Looks a student up in a pool and copies their list.
pub fn pend_get_clone(p: &Preferences, id: u32) -> (r: Option<StudentPref>)
    requires
        pend_wf(p.deep_view()),
    ensures
        r matches Some(v) ==> pend_has(p.deep_view(), id) && v.deep_view() == pend_lookup(
            p.deep_view(),
            id,
        ),
        r is None ==> !pend_has(p.deep_view(), id),
{
    let mut i: usize = 0;
    while i < p.len()
        invariant
            0 <= i <= p@.len(),
            pend_wf(p.deep_view()),
            p.deep_view().len() == p@.len(),
            forall|k: int| 0 <= k < i ==> p.deep_view()[k].0 != id,
        decreases p@.len() - i,
    {
        if p[i].0 == id {
            let r = clone_pref(&p[i].1);
            proof {
                assert(p.deep_view()[i as int].0 == id);
                lemma_pend_lookup_at(p.deep_view(), i as int);
            }
            return Some(r);
        }
        i += 1;
    }
    None
}

/// Finds the slot of the given course name in the assignment.
pub fn find_slot(m: &Matchings, name: &str) -> (r: Option<usize>)
    ensures
        r matches Some(k) ==> k < m.deep_view().len() && m.deep_view()[k as int].0 == name@,
        r is None ==> forall|k: int| 0 <= k < m.deep_view().len() ==> m.deep_view()[k].0 != name@,
{
    let mut i: usize = 0;
    while i < m.len()
        invariant
            0 <= i <= m@.len(),
            m.deep_view().len() == m@.len(),
            forall|k: int| 0 <= k < i ==> m.deep_view()[k].0 != name@,
        decreases m@.len() - i,
    {
        if str_eq(m[i].0.as_str(), name) {
            return Some(i);
        }
        i += 1;
    }
    None
}

/// An assignment whose lists are all empty holds nobody.
proof fn lemma_total_count_empty(m: MatchView, id: u32)
    requires
        forall|k: int| 0 <= k < m.len() ==> m[k].1.len() == 0,
    ensures
        total_count(m, id) == 0,
    decreases m.len(),
{
    if m.len() > 0 {
        assert(forall|k: int| 0 <= k < m.drop_first().len() ==> m.drop_first()[k] == m[k + 1]);
        lemma_total_count_empty(m.drop_first(), id);
    }
}

/// Accepting an entrant at a slot that still has room unblocks nothing:
/// every blocked entry stays blocked.
proof fn lemma_blocked_all_accept(cv: CatView, mv: MatchView, kk: int, nl: Seq<Accepted>)
    requires
        0 <= kk < mv.len(),
        mv[kk].1.len() < cat_cap(cv, mv[kk].0),
    ensures
        forall|pe: (Seq<char>, u32)|
            entry_blocked(mv, cv, pe) ==> entry_blocked(
                mv.update(kk, (mv[kk].0, nl)),
                cv,
                pe,
            ),
{
    let mv2 = mv.update(kk, (mv[kk].0, nl));
    assert forall|pe: (Seq<char>, u32)| entry_blocked(mv, cv, pe) implies entry_blocked(
        mv2,
        cv,
        pe,
    ) by {
        let k = choose|k: int|
            0 <= k < mv.len() && #[trigger] mv[k].0 == pe.0 && mv[k].1.len() == cat_cap(cv, pe.0)
                && (forall|i: int| 0 <= i < mv[k].1.len() ==> mv[k].1[i].1 >= pe.1);
        assert(k != kk);
        assert(mv2[k] == mv[k]);
    }
}

/// Displacing the weakest entrant of a full slot by a strictly stronger one
/// keeps the slot full and keeps every accepted priority at least as high:
/// every blocked entry stays blocked.
proof fn lemma_blocked_all_displace(
    cv: CatView,
    mv: MatchView,
    kk: int,
    nl: Seq<Accepted>,
    newp: u32,
)
    requires
        0 <= kk < mv.len(),
        mv[kk].1.len() > 0,
        nl.len() == mv[kk].1.len(),
        newp > mv[kk].1.last().1,
        forall|i: int|
            0 <= i < nl.len() ==> nl[i].1 >= newp || (exists|j: int|
                0 <= j < mv[kk].1.len() && nl[i] == mv[kk].1[j]),
    ensures
        forall|pe: (Seq<char>, u32)|
            entry_blocked(mv, cv, pe) ==> entry_blocked(
                mv.update(kk, (mv[kk].0, nl)),
                cv,
                pe,
            ),
{
    let mv2 = mv.update(kk, (mv[kk].0, nl));
    assert forall|pe: (Seq<char>, u32)| entry_blocked(mv, cv, pe) implies entry_blocked(
        mv2,
        cv,
        pe,
    ) by {
        let k = choose|k: int|
            0 <= k < mv.len() && #[trigger] mv[k].0 == pe.0 && mv[k].1.len() == cat_cap(cv, pe.0)
                && (forall|i: int| 0 <= i < mv[k].1.len() ==> mv[k].1[i].1 >= pe.1);
        if k != kk {
            assert(mv2[k] == mv[k]);
        } else {
            assert(mv2[kk].0 == pe.0);
            assert(mv2[kk].1.len() == cat_cap(cv, pe.0));
            assert forall|i: int| 0 <= i < mv2[kk].1.len() implies mv2[kk].1[i].1 >= pe.1 by {
                assert(mv[kk].1.last().1 >= pe.1);
                if nl[i].1 >= newp {
                } else {
                    let j = choose|j: int| 0 <= j < mv[kk].1.len() && nl[i] == mv[kk].1[j];
                }
            }
        }
    }
}

/// Builds the initial assignment: every catalog course, no entrants yet.
pub fn empty_matchings(catalog: &Catalog) -> (r: Matchings)
    ensures
        names_match(r.deep_view(), catalog.deep_view()),
        forall|k: int| 0 <= k < r.deep_view().len() ==> r.deep_view()[k].1.len() == 0,
{
    let mut r: Matchings = Vec::new();
    let mut i: usize = 0;
    while i < catalog.len()
        invariant
            0 <= i <= catalog@.len(),
            catalog.deep_view().len() == catalog@.len(),
            r.deep_view().len() == i,
            forall|k: int|
                0 <= k < i ==> r.deep_view()[k].0 == catalog.deep_view()[k].0
                    && r.deep_view()[k].1.len() == 0,
        decreases catalog@.len() - i,
    {
        let name = catalog[i].0.as_str().to_owned();
        let empty: Vec<(u32, u32)> = Vec::new();
        r.push((name, empty));
        i += 1;
    }
    r
}

/// The slot of the given course name in the assignment (meaningful when
/// the assignment has one).
pub open spec fn slot_idx(m: MatchView, name: Seq<char>) -> int {
    choose|k: int| 0 <= k < m.len() && m[k].0 == name
}

/// The whole proposal loop as a mathematical function of its input.
///
/// [`proposing`]'s contract says its result is exactly this value, which is
/// what makes the engine deterministic: two runs on identical input return
/// identical assignments and identical unmatched lists, since both equal
/// `spec_run` of that input.  `None` is the fatal unknown-course outcome.
pub open spec fn spec_run(
    c: CatView,
    b: PendView,
    p: PendView,
    m: MatchView,
    u: Seq<u32>,
) -> Option<(MatchView, Seq<u32>)>
    decreases total_pot(c, m), pend_work(p)
        when caps_ok(m, c) && pend_wf(p)
        via spec_run_decreases
{
    if p.len() == 0 {
        Some((m, u))
    } else {
        let id = p[0].0;
        let l = p[0].1;
        let rest = p.drop_first();
        if l.len() == 0 {
            spec_run(c, b, rest, m, u.push(id))
        } else {
            let course = l.last().0;
            let prio = l.last().1;
            if !cat_has(c, course) {
                None
            } else {
                let kk = slot_idx(m, course);
                if !(0 <= kk < m.len() && m[kk].0 == course) {
                    None
                } else {
                    let cap = cat_cap(c, course);
                    let lst = m[kk].1;
                    if lst.len() < cap {
                        spec_run(
                            c,
                            b,
                            rest,
                            m.update(kk, (m[kk].0, sort_desc_spec(lst.push((id, prio))))),
                            u,
                        )
                    } else if lst.len() > 0 && lst.last().1 < prio {
                        spec_run(
                            c,
                            b,
                            spec_pend_insert(rest, lst.last().0, pend_lookup(b, lst.last().0)),
                            m.update(
                                kk,
                                (m[kk].0, sort_desc_spec(lst.drop_last().push((id, prio)))),
                            ),
                            u,
                        )
                    } else {
                        spec_run(c, b, spec_pend_insert(rest, id, l.drop_last()), m, u)
                    }
                }
            }
        }
    }
}

#[via_fn]
proof fn spec_run_decreases(c: CatView, b: PendView, p: PendView, m: MatchView, u: Seq<u32>) {
    lemma_total_pot_nonneg(c, m);
    if p.len() > 0 {
        let id = p[0].0;
        let l = p[0].1;
        let rest = p.drop_first();
        assert(pend_work(p) == l.len() + 1 + pend_work(rest));
        if l.len() == 0 {
        } else {
            let course = l.last().0;
            let prio = l.last().1;
            if cat_has(c, course) {
                let kk = slot_idx(m, course);
                if 0 <= kk < m.len() && m[kk].0 == course {
                    let cap = cat_cap(c, course);
                    let lst = m[kk].1;
                    if lst.len() < cap {
                        let nl = sort_desc_spec(lst.push((id, prio)));
                        let m2 = m.update(kk, (m[kk].0, nl));
                        lemma_sort_desc_len(lst.push((id, prio)));
                        lemma_score_room_sort(lst.push((id, prio)));
                        lemma_score_room_push(lst, (id, prio));
                        lemma_total_pot_update(c, m, kk, nl);
                        assert(slot_pot(cap, nl) - slot_pot(cap, lst) < 0);
                        assert(caps_ok(m2, c));
                        lemma_total_pot_nonneg(c, m2);
                    } else if lst.len() > 0 && lst.last().1 < prio {
                        let nl = sort_desc_spec(lst.drop_last().push((id, prio)));
                        let m2 = m.update(kk, (m[kk].0, nl));
                        lemma_sort_desc_len(lst.drop_last().push((id, prio)));
                        lemma_score_room_sort(lst.drop_last().push((id, prio)));
                        lemma_score_room_push(lst.drop_last(), (id, prio));
                        lemma_score_room_drop_last(lst);
                        lemma_total_pot_update(c, m, kk, nl);
                        assert(slot_pot(cap, nl) - slot_pot(cap, lst) < 0);
                        assert(caps_ok(m2, c));
                        lemma_total_pot_nonneg(c, m2);
                    } else {
                        assert forall|k: int| 0 <= k < rest.len() implies rest[k].0 != id by {
                            assert(rest[k] == p[k + 1]);
                        }
                        lemma_spec_pend_insert_work(rest, id, l.drop_last());
                    }
                }
            }
        }
    }
}

/// The just-popped entry witnesses the provenance of a new acceptance.
proof fn lemma_accepted_new(bv: PendView, name: Seq<char>, id: u32, prio: u32, n: int)
    requires
        pend_has(bv, id),
        0 < n <= pend_lookup(bv, id).len(),
        pend_lookup(bv, id)[n - 1] == (name, prio),
    ensures
        accepted_ok(bv, name, (id, prio)),
{
    assert(pend_lookup(bv, id)[n - 1].0 == name && pend_lookup(bv, id)[n - 1].1 == prio);
}

/// Under distinct course names, the slot of a name is the index where it
/// was found.
proof fn lemma_slot_idx_unique(cv: CatView, mv: MatchView, kk: int, name: Seq<char>)
    requires
        cat_wf(cv),
        names_match(mv, cv),
        0 <= kk < mv.len(),
        mv[kk].0 == name,
    ensures
        slot_idx(mv, name) == kk,
{
    let k2 = slot_idx(mv, name);
    assert(0 <= k2 < mv.len() && mv[k2].0 == name);
    if k2 < kk {
        assert(cv[k2].0 != cv[kk].0);
    } else if k2 > kk {
        assert(cv[kk].0 != cv[k2].0);
    }
}

/// Boundary law: a student whose original preference list is empty is never
/// accepted anywhere, so a run that ends with the partition of
/// [`proposing`]'s contract leaves that student among the unmatched.
pub proof fn lemma_empty_pref_unmatched(bv: PendView, u: Seq<u32>, mv: MatchView, j: int)
    requires
        pend_wf(bv),
        forall|id: u32|
            #[trigger] total_count(mv, id) + ucount(u, id) == pend01(bv, id),
        forall|k: int, i: int|
            0 <= k < mv.len() && 0 <= i < mv[k].1.len() ==> accepted_ok(
                bv,
                mv[k].0,
                mv[k].1[i],
            ),
        0 <= j < bv.len(),
        bv[j].1.len() == 0,
    ensures
        total_count(mv, bv[j].0) == 0,
        u.contains(bv[j].0),
{
    let id = bv[j].0;
    lemma_pend_lookup_at(bv, j);
    assert(pend01(bv, id) == 1);
    if total_count(mv, id) > 0 {
        crate::model::lemma_total_count_pos(mv, id);
        let (k, i) = choose|k: int, i: int|
            0 <= k < mv.len() && 0 <= i < mv[k].1.len() && mv[k].1[i].0 == id;
        assert(accepted_ok(bv, mv[k].0, mv[k].1[i]));
        assert(pend_lookup(bv, id).len() == 0);
    }
    assert(total_count(mv, id) == 0);
    assert(ucount(u, id) == 1);
    lemma_ucount_contains(u, id);
}

/// Distinct-identity law: under the partition that [`proposing`]'s contract
/// gives, no student appears twice anywhere in the assignment — in
/// particular no slot's list repeats a student.
pub proof fn lemma_no_duplicate_students(bv: PendView, u: Seq<u32>, mv: MatchView)
    requires
        forall|id: u32|
            #[trigger] total_count(mv, id) + ucount(u, id) == pend01(bv, id),
    ensures
        forall|k1: int, i1: int, k2: int, i2: int|
            0 <= k1 < mv.len() && 0 <= i1 < mv[k1].1.len() && 0 <= k2 < mv.len() && 0 <= i2
                < mv[k2].1.len() && (k1, i1) != (k2, i2) ==> mv[k1].1[i1].0 != mv[k2].1[i2].0,
{
    assert forall|k1: int, i1: int, k2: int, i2: int|
        0 <= k1 < mv.len() && 0 <= i1 < mv[k1].1.len() && 0 <= k2 < mv.len() && 0 <= i2
            < mv[k2].1.len() && (k1, i1) != (k2, i2) implies mv[k1].1[i1].0 != mv[k2].1[i2].0 by {
        if mv[k1].1[i1].0 == mv[k2].1[i2].0 {
            let id = mv[k1].1[i1].0;
            if k1 == k2 {
                if i1 < i2 {
                    crate::model::lemma_id_count_two(mv[k1].1, i1, i2);
                } else {
                    crate::model::lemma_id_count_two(mv[k1].1, i2, i1);
                }
                lemma_total_count_at(mv, k1, id);
            } else if k1 < k2 {
                lemma_id_count_at(mv[k1].1, i1);
                lemma_id_count_at(mv[k2].1, i2);
                crate::model::lemma_total_count_two_slots(mv, k1, k2, id);
            } else {
                lemma_id_count_at(mv[k1].1, i1);
                lemma_id_count_at(mv[k2].1, i2);
                crate::model::lemma_total_count_two_slots(mv, k2, k1, id);
            }
            assert(total_count(mv, id) >= 2);
            assert(total_count(mv, id) + ucount(u, id) == pend01(bv, id));
        }
    }
}

/// Runs the deferred-acceptance loop to exhaustion of the pending pool.
///
/// Students are dequeued lowest identifier first.  A student's best untried
/// entry is popped; the course accepts them while it has room, displaces its
/// weakest entrant for a strictly stronger offer (the displaced student
/// re-queues with their full original list), and rejects everyone else (the
/// rejected student re-queues with the rest of their list).  The run fails
/// only when a popped entry names a course the catalog does not declare.
///
/// Each step restores the descending order of the one touched course's
/// list.  Re-sorting every list after every step would give the same
/// result, since sorting an already sorted list is a no-op
/// ([`crate::sorting::lemma_sort_desc_of_sorted`]).
///
/// The run is deterministic: the contract pins the result to [`spec_run`]
/// of the input, so identical inputs give identical outputs.
///
/// On success the unmatched students are returned, and the contract states:
/// capacities are respected, every course's list is sorted descending,
/// every input student sits in exactly one slot's list or appears exactly
/// once among the unmatched, every accepted pair comes from that student's
/// own input list, and every entry of an unmatched student's list points at
/// a full course whose accepted priorities all reach that entry's priority.
#[verifier::rlimit(100)]
pub fn proposing(
    catalog: &Catalog,
    preferences: &mut Preferences,
    matchings: &mut Matchings,
) -> (r: Result<Vec<u32>, MatchError>)
    requires
        cat_wf(catalog.deep_view()),
        pend_wf(old(preferences).deep_view()),
        names_match(old(matchings).deep_view(), catalog.deep_view()),
        forall|k: int|
            0 <= k < old(matchings).deep_view().len()
                ==> old(matchings).deep_view()[k].1.len() == 0,
    ensures
        names_match(final(matchings).deep_view(), catalog.deep_view()),
        caps_ok(final(matchings).deep_view(), catalog.deep_view()),
        all_sorted(final(matchings).deep_view()),
        r matches Ok(u) ==> final(preferences)@.len() == 0 && (forall|id: u32|
            total_count(final(matchings).deep_view(), id) + ucount(u@, id) == pend01(
                old(preferences).deep_view(),
                id,
            )) && (forall|i: int|
            0 <= i < u@.len() ==> unmatched_ok(
                old(preferences).deep_view(),
                catalog.deep_view(),
                final(matchings).deep_view(),
                u@[i],
            )) && (forall|k: int, i: int|
            0 <= k < final(matchings).deep_view().len() && 0 <= i
                < final(matchings).deep_view()[k].1.len() ==> accepted_ok(
                old(preferences).deep_view(),
                final(matchings).deep_view()[k].0,
                final(matchings).deep_view()[k].1[i],
            )),
        r matches Err(MatchError::UnknownSlot(c)) ==> !cat_has(catalog.deep_view(), c@) && (
        exists|j: int, t: int|
            0 <= j < old(preferences).deep_view().len()
                && 0 <= t < old(preferences).deep_view()[j].1.len()
                && old(preferences).deep_view()[j].1[t].0 == c@),
        (forall|j: int, t: int|
            0 <= j < old(preferences).deep_view().len()
                && 0 <= t < old(preferences).deep_view()[j].1.len() ==> cat_has(
                catalog.deep_view(),
                old(preferences).deep_view()[j].1[t].0,
            )) ==> r is Ok,
        r matches Ok(u) ==> spec_run(
            catalog.deep_view(),
            old(preferences).deep_view(),
            old(preferences).deep_view(),
            old(matchings).deep_view(),
            Seq::<u32>::empty(),
        ) == Some((final(matchings).deep_view(), u@)),
        r is Err ==> spec_run(
            catalog.deep_view(),
            old(preferences).deep_view(),
            old(preferences).deep_view(),
            old(matchings).deep_view(),
            Seq::<u32>::empty(),
        ) is None,
{
    let ghost cv = catalog.deep_view();
    let ghost bv = preferences.deep_view();
    let ghost mv_init = matchings.deep_view();
    let backup = clone_pending(preferences);
    let mut unmatched: Vec<u32> = Vec::new();
    proof {
        assert(unmatched@ =~= Seq::<u32>::empty());
        assert forall|id: u32|
            pend01(preferences.deep_view(), id) + total_count(matchings.deep_view(), id)
                + ucount(unmatched@, id) == pend01(bv, id) by {
            lemma_total_count_empty(matchings.deep_view(), id);
        }
        assert forall|j: int| 0 <= j < preferences.deep_view().len() implies pending_entry_ok(
            bv,
            cv,
            matchings.deep_view(),
            preferences.deep_view()[j],
        ) by {
            lemma_pend_lookup_at(bv, j);
            assert(bv[j].1.subrange(0, bv[j].1.len() as int) =~= bv[j].1);
        }
    }
    while preferences.len() > 0
        invariant
            cv == catalog.deep_view(),
            cat_wf(cv),
            bv == backup.deep_view(),
            bv == old(preferences).deep_view(),
            pend_wf(bv),
            pend_wf(preferences.deep_view()),
            names_match(matchings.deep_view(), cv),
            caps_ok(matchings.deep_view(), cv),
            all_sorted(matchings.deep_view()),
            forall|id: u32|
                pend01(preferences.deep_view(), id) + total_count(matchings.deep_view(), id)
                    + ucount(unmatched@, id) == pend01(bv, id),
            forall|j: int|
                0 <= j < preferences.deep_view().len() ==> pending_entry_ok(
                    bv,
                    cv,
                    matchings.deep_view(),
                    preferences.deep_view()[j],
                ),
            forall|i: int|
                0 <= i < unmatched@.len() ==> unmatched_ok(
                    bv,
                    cv,
                    matchings.deep_view(),
                    unmatched@[i],
                ),
            forall|k: int, i: int|
                0 <= k < matchings.deep_view().len() && 0 <= i
                    < matchings.deep_view()[k].1.len() ==> accepted_ok(
                    bv,
                    matchings.deep_view()[k].0,
                    matchings.deep_view()[k].1[i],
                ),
            mv_init == old(matchings).deep_view(),
            spec_run(cv, bv, preferences.deep_view(), matchings.deep_view(), unmatched@)
                == spec_run(cv, bv, bv, mv_init, Seq::<u32>::empty()),
        decreases total_pot(cv, matchings.deep_view()), pend_work(preferences.deep_view()),
    {
        let ghost pv0 = preferences.deep_view();
        let ghost mv0 = matchings.deep_view();
        let (id, mut pref) = preferences.remove(0);
        proof {
            assert(preferences.deep_view() =~~= pv0.drop_first());
            assert(pv0[0] == (id, pref.deep_view()));
            assert forall|x: u32| #[trigger] pend01(preferences.deep_view(), x) == pend01(
                pv0,
                x,
            ) - (if x == id {
                1int
            } else {
                0int
            }) by {
                let pm = preferences.deep_view();
                if pend_has(pm, x) {
                    let j = choose|j: int| 0 <= j < pm.len() && pm[j].0 == x;
                    assert(pv0[j + 1].0 == x);
                    assert(pend_has(pv0, x));
                    assert(x != id || pv0[0].0 == pv0[j + 1].0);
                }
                if pend_has(pv0, x) && x != id {
                    let j = choose|j: int| 0 <= j < pv0.len() && pv0[j].0 == x;
                    assert(j != 0);
                    assert(pm[j - 1].0 == x);
                }
                if x == id {
                    assert(pend_has(pv0, id));
                }
            }
            assert(pend_work(pv0) == pv0[0].1.len() + 1 + pend_work(pv0.drop_first()));
            assert(pending_entry_ok(bv, cv, mv0, pv0[0]));
            assert forall|j: int| 0 <= j < preferences.deep_view().len() implies pending_entry_ok(
                bv,
                cv,
                mv0,
                preferences.deep_view()[j],
            ) by {
                assert(preferences.deep_view()[j] == pv0[j + 1]);
            }
        }
        let ghost bl = pend_lookup(bv, id);
        let ghost n = pref.deep_view().len() as int;
        if pref.len() == 0 {
            let ghost u0 = unmatched@;
            unmatched.push(id);
            proof {
                assert forall|x: u32|
                    pend01(preferences.deep_view(), x) + total_count(matchings.deep_view(), x)
                        + ucount(unmatched@, x) == pend01(bv, x) by {
                    lemma_ucount_push(u0, id, x);
                }
                assert(unmatched_ok(bv, cv, mv0, id)) by {
                    assert(pending_entry_ok(bv, cv, mv0, pv0[0]));
                    assert(pv0[0].1.len() == 0);
                }
                assert forall|i: int| 0 <= i < unmatched@.len() implies unmatched_ok(
                    bv,
                    cv,
                    matchings.deep_view(),
                    unmatched@[i],
                ) by {
                    if i < u0.len() {
                        assert(unmatched@[i] == u0[i]);
                    } else {
                        assert(unmatched@[i] == id);
                    }
                }
                // one unfolding of the run
                assert(caps_ok(mv0, cv) && pend_wf(pv0));
                assert(pv0.len() > 0 && pv0[0].1.len() == 0);
                assert(spec_run(cv, bv, pv0, mv0, u0) == spec_run(
                    cv,
                    bv,
                    pv0.drop_first(),
                    mv0,
                    u0.push(pv0[0].0),
                ));
                assert(unmatched@ == u0.push(id));
            }
        } else {
            let (course, prio) = pref.pop().unwrap();
            proof {
                assert(pref.deep_view() =~~= pv0[0].1.drop_last());
                assert((course@, prio) == pv0[0].1.last());
                assert(pv0[0].1 == bl.subrange(0, n));
                assert(bl[n - 1] == (course@, prio));
            }
            let capo = catalog_capacity(catalog, course.as_str());
            if capo.is_none() {
                proof {
                    assert(pend_has(bv, id));
                    let jb = pend_idx(bv, id);
                    assert(0 <= jb < bv.len() && bv[jb].0 == id);
                    assert(bv[jb].1 == bl);
                    assert(0 <= n - 1 < bl.len());
                    assert(bv[jb].1[n - 1].0 == course@);
                    assert(old(preferences).deep_view() == bv);
                    assert(exists|j: int, t: int|
                        0 <= j < bv.len() && 0 <= t < bv[j].1.len() && bv[j].1[t].0
                            == course@) by {
                        assert(0 <= jb < bv.len() && 0 <= n - 1 < bv[jb].1.len()
                            && bv[jb].1[n - 1].0 == course@);
                    }
                    // one unfolding of the run: the unknown course is fatal
                    assert(caps_ok(mv0, cv) && pend_wf(pv0));
                    assert(pv0.len() > 0 && pv0[0].1.len() == n && n > 0);
                    assert(pv0[0].1.last() == (course@, prio));
                    assert(spec_run(cv, bv, pv0, mv0, unmatched@) is None);
                }
                return Err(MatchError::UnknownSlot(course));
            }
            let cap = capo.unwrap();
            proof {
                crate::catalog::lemma_cat_cap_entry(cv, course@);
                assert(cap > 0);
            }
            let kko = find_slot(matchings, course.as_str());
            proof {
                if kko is None {
                    let k = choose|k: int| 0 <= k < cv.len() && cv[k].0 == course@;
                    assert(matchings.deep_view()[k].0 == course@);
                }
            }
            let kk = kko.unwrap();
            proof {
                assert(cat_cap(cv, mv0[kk as int].0) == cap);
            }
            let cur_len = matchings[kk].1.len();
            if cur_len < cap as usize {
                let pair = matchings.remove(kk);
                let ghost taken = pair.1@;
                let ghost tname = pair.0@;
                proof {
                    assert(taken =~= mv0[kk as int].1);
                    assert(tname == mv0[kk as int].0);
                }
                let nm = pair.0;
                let mut lst = pair.1;
                lst.push((id, prio));
                let lst = sort_desc(lst);
                matchings.insert(kk, (nm, lst));
                proof {
                    let old_l = mv0[kk as int].1;
                    let nl = sort_desc_spec(old_l.push((id, prio)));
                    let mv1 = matchings.deep_view();
                    assert(lst@ == nl);
                    assert(lst.deep_view() =~= lst@);
                    assert(mv1 =~~= mv0.update(kk as int, (mv0[kk as int].0, nl)));
                    lemma_sort_desc_len(old_l.push((id, prio)));
                    lemma_sort_desc_sorted(old_l.push((id, prio)));
                    lemma_sort_desc_contains(old_l.push((id, prio)));
                    lemma_score_room_sort(old_l.push((id, prio)));
                    lemma_score_room_push(old_l, (id, prio));
                    assert(names_match(mv1, cv) && caps_ok(mv1, cv) && all_sorted(mv1));
                    // partition
                    assert forall|x: u32|
                        pend01(preferences.deep_view(), x) + total_count(mv1, x) + ucount(
                            unmatched@,
                            x,
                        ) == pend01(bv, x) by {
                        lemma_total_count_update(mv0, kk as int, nl, x);
                        lemma_sort_desc_count(old_l.push((id, prio)), x);
                        lemma_id_count_push(old_l, (id, prio), x);
                    }
                    // blocked entries stay blocked
                    lemma_blocked_all_accept(cv, mv0, kk as int, nl);
                    assert forall|j: int|
                        0 <= j < preferences.deep_view().len() implies pending_entry_ok(
                        bv,
                        cv,
                        mv1,
                        preferences.deep_view()[j],
                    ) by {
                        assert(pending_entry_ok(bv, cv, mv0, preferences.deep_view()[j]));
                    }
                    assert forall|i: int| 0 <= i < unmatched@.len() implies unmatched_ok(
                        bv,
                        cv,
                        mv1,
                        unmatched@[i],
                    ) by {
                        assert(unmatched_ok(bv, cv, mv0, unmatched@[i]));
                    }
                    // provenance
                    assert(pend_has(bv, id) && bl[n - 1] == (mv0[kk as int].0, prio));
                    lemma_accepted_new(bv, mv0[kk as int].0, id, prio, n);
                    assert forall|k: int, i: int|
                        0 <= k < mv1.len() && 0 <= i < mv1[k].1.len() implies accepted_ok(
                        bv,
                        mv1[k].0,
                        mv1[k].1[i],
                    ) by {
                        if k == kk as int {
                            assert(nl.contains(nl[i]));
                            if nl[i] == (id, prio) {
                            } else {
                                assert(old_l.push((id, prio)).contains(nl[i]));
                                let j = choose|j: int|
                                    0 <= j < old_l.push((id, prio)).len() && old_l.push(
                                        (id, prio),
                                    )[j] == nl[i];
                                assert(j < old_l.len());
                                assert(accepted_ok(bv, mv0[k].0, old_l[j]));
                            }
                        }
                    }
                    // termination: one seat fewer is free
                    lemma_total_pot_update(cv, mv0, kk as int, nl);
                    lemma_total_pot_nonneg(cv, mv1);
                    assert(slot_pot(cap, nl) - slot_pot(cap, old_l) < 0);
                    // one unfolding of the run
                    lemma_slot_idx_unique(cv, mv0, kk as int, course@);
                    assert(caps_ok(mv0, cv) && pend_wf(pv0));
                    assert(pv0.len() > 0 && pv0[0].1.len() == n && n > 0);
                    assert(pv0[0].1.last() == (course@, prio));
                    assert(cat_has(cv, course@));
                    assert(mv0[kk as int].1.len() == cur_len);
                    assert(cur_len < cat_cap(cv, course@));
                    assert(spec_run(cv, bv, pv0, mv0, unmatched@) == spec_run(
                        cv,
                        bv,
                        pv0.drop_first(),
                        mv0.update(kk as int, (mv0[kk as int].0, nl)),
                        unmatched@,
                    ));
                    assert(preferences.deep_view() == pv0.drop_first());
                    assert(matchings.deep_view() == mv0.update(kk as int, (mv0[kk as int].0, nl)));
                }
            } else {
                proof {
                    assert(cur_len == cap);
                }
                let low = matchings[kk].1[cur_len - 1];
                proof {
                    assert(low == mv0[kk as int].1.last());
                }
                if low.1 < prio {
                    let pair = matchings.remove(kk);
                    let ghost taken = pair.1@;
                    let ghost tname = pair.0@;
                    proof {
                        assert(taken =~= mv0[kk as int].1);
                        assert(tname == mv0[kk as int].0);
                    }
                    let nm = pair.0;
                    let mut lst = pair.1;
                    let _weakest = lst.pop();
                    lst.push((id, prio));
                    let lst2 = sort_desc(lst);
                    matchings.insert(kk, (nm, lst2));
                    let lowo = pend_get_clone(&backup, low.0);
                    proof {
                        let old_l = mv0[kk as int].1;
                        assert(old_l[cur_len - 1] == low);
                        lemma_id_count_at(old_l, cur_len - 1);
                        lemma_total_count_at(mv0, kk as int, low.0);
                        assert(total_count(mv0, low.0) >= 1);
                        assert(pend01(bv, low.0) == 1);
                        assert(pend_has(bv, low.0));
                        assert(lowo is Some);
                    }
                    let lowpref = lowo.unwrap();
                    pend_insert(preferences, low.0, lowpref);
                    proof {
                        let old_l = mv0[kk as int].1;
                        let mid = old_l.drop_last().push((id, prio));
                        let nl = sort_desc_spec(mid);
                        let mv1 = matchings.deep_view();
                        assert(taken.drop_last() =~= old_l.drop_last());
                        assert(lst2@ == nl);
                        assert(lst2.deep_view() =~= lst2@);
                        assert(mv1 =~~= mv0.update(kk as int, (mv0[kk as int].0, nl)));
                        lemma_sort_desc_len(mid);
                        lemma_sort_desc_sorted(mid);
                        lemma_sort_desc_contains(mid);
                        lemma_score_room_sort(mid);
                        lemma_score_room_push(old_l.drop_last(), (id, prio));
                        lemma_score_room_drop_last(old_l);
                        assert(names_match(mv1, cv) && caps_ok(mv1, cv) && all_sorted(mv1));
                        // the pool before the displaced student came back
                        let pm = pv0.drop_first();
                        // partition
                        assert(pend_has(pv0, id) && pend01(pv0, id) == 1);
                        assert(pend01(pv0, id) + total_count(mv0, id) + ucount(unmatched@, id)
                            == pend01(bv, id));
                        assert(total_count(mv0, id) == 0 && ucount(unmatched@, id) == 0);
                        assert(pend01(pm, low.0) == 0);
                        assert forall|x: u32|
                            pend01(preferences.deep_view(), x) + total_count(mv1, x) + ucount(
                                unmatched@,
                                x,
                            ) == pend01(bv, x) by {
                            lemma_total_count_update(mv0, kk as int, nl, x);
                            lemma_sort_desc_count(mid, x);
                            lemma_id_count_push(old_l.drop_last(), (id, prio), x);
                            lemma_id_count_drop_last(old_l, x);
                            assert(pend01(preferences.deep_view(), x) == (if x == low.0 {
                                1nat
                            } else {
                                pend01(pm, x)
                            }));
                        }
                        // every element of the new list is the new offer or an old one
                        assert forall|i: int|
                            0 <= i < nl.len() implies nl[i].1 >= prio || (exists|j: int|
                            0 <= j < old_l.len() && nl[i] == old_l[j]) by {
                            assert(nl.contains(nl[i]));
                            assert(mid.contains(nl[i]));
                            let j = choose|j: int| 0 <= j < mid.len() && mid[j] == nl[i];
                            if j < old_l.len() - 1 {
                                assert(nl[i] == old_l[j]);
                            } else {
                                assert(mid[j] == (id, prio));
                            }
                        }
                        lemma_blocked_all_displace(cv, mv0, kk as int, nl, prio);
                        // pending entries: the displaced student starts afresh,
                        // everyone else is unchanged
                        assert(pending_entry_ok(bv, cv, mv1, (low.0, pend_lookup(bv, low.0))))
                            by {
                            let bll = pend_lookup(bv, low.0);
                            assert(bll.subrange(0, bll.len() as int) =~= bll);
                        }
                        assert forall|j: int|
                            0 <= j < preferences.deep_view().len() implies pending_entry_ok(
                            bv,
                            cv,
                            mv1,
                            preferences.deep_view()[j],
                        ) by {
                            let pe = preferences.deep_view()[j];
                            if pe.0 == low.0 {
                                lemma_pend_lookup_at(preferences.deep_view(), j);
                                assert(pe.1 == pend_lookup(bv, low.0));
                            } else {
                                let j0 = choose|j0: int| 0 <= j0 < pm.len() && pe == pm[j0];
                                assert(pending_entry_ok(bv, cv, mv0, pm[j0]));
                            }
                        }
                        assert forall|i: int| 0 <= i < unmatched@.len() implies unmatched_ok(
                            bv,
                            cv,
                            mv1,
                            unmatched@[i],
                        ) by {
                            assert(unmatched_ok(bv, cv, mv0, unmatched@[i]));
                        }
                        // provenance
                        assert(pend_has(bv, id) && bl[n - 1] == (mv0[kk as int].0, prio));
                        lemma_accepted_new(bv, mv0[kk as int].0, id, prio, n);
                        assert forall|k: int, i: int|
                            0 <= k < mv1.len() && 0 <= i < mv1[k].1.len() implies accepted_ok(
                            bv,
                            mv1[k].0,
                            mv1[k].1[i],
                        ) by {
                            if k == kk as int {
                                assert(nl.contains(nl[i]));
                                assert(mid.contains(nl[i]));
                                let j = choose|j: int| 0 <= j < mid.len() && mid[j] == nl[i];
                                if j < old_l.len() - 1 {
                                    assert(nl[i] == old_l[j]);
                                    assert(accepted_ok(bv, mv0[k].0, old_l[j]));
                                } else {
                                    assert(mid[j] == (id, prio));
                                }
                            }
                        }
                        // termination: the slot trades its weakest entrant up
                        lemma_total_pot_update(cv, mv0, kk as int, nl);
                        lemma_total_pot_nonneg(cv, mv1);
                        assert(nl.len() == old_l.len());
                        assert(score_room(nl) == score_room(old_l) + low.1 - prio);
                        assert(slot_pot(cap, nl) - slot_pot(cap, old_l) < 0);
                        // one unfolding of the run
                        lemma_slot_idx_unique(cv, mv0, kk as int, course@);
                        assert(caps_ok(mv0, cv) && pend_wf(pv0));
                        assert(pv0.len() > 0 && pv0[0].1.len() == n && n > 0);
                        assert(pv0[0].1.last() == (course@, prio));
                        assert(cat_has(cv, course@));
                        assert(mv0[kk as int].1.len() == cur_len);
                        assert(cur_len == cat_cap(cv, course@) && cur_len > 0);
                        assert(mv0[kk as int].1.last() == low && low.1 < prio);
                        assert(lowpref.deep_view() == pend_lookup(bv, low.0));
                        assert(spec_run(cv, bv, pv0, mv0, unmatched@) == spec_run(
                            cv,
                            bv,
                            spec_pend_insert(pv0.drop_first(), low.0, pend_lookup(bv, low.0)),
                            mv0.update(kk as int, (mv0[kk as int].0, nl)),
                            unmatched@,
                        ));
                        assert(preferences.deep_view() == spec_pend_insert(
                            pv0.drop_first(),
                            low.0,
                            pend_lookup(bv, low.0),
                        ));
                        assert(matchings.deep_view() == mv0.update(
                            kk as int,
                            (mv0[kk as int].0, nl),
                        ));
                    }
                } else {
                    pend_insert(preferences, id, pref);
                    proof {
                        let pm = pv0.drop_first();
                        let old_l = mv0[kk as int].1;
                        // the popped entry is now blocked at its full course
                        assert(entry_blocked(mv0, cv, bl[n - 1])) by {
                            assert(mv0[kk as int].0 == bl[n - 1].0);
                            assert(mv0[kk as int].1.len() == cat_cap(cv, bl[n - 1].0));
                            assert forall|i: int|
                                0 <= i < old_l.len() implies old_l[i].1 >= bl[n - 1].1 by {
                                assert(old_l[i].1 >= old_l[cur_len - 1].1);
                            }
                        }
                        assert(pend01(pm, id) == 0);
                        assert forall|x: u32|
                            pend01(preferences.deep_view(), x) + total_count(
                                matchings.deep_view(),
                                x,
                            ) + ucount(unmatched@, x) == pend01(bv, x) by {
                            assert(pend01(preferences.deep_view(), x) == (if x == id {
                                1nat
                            } else {
                                pend01(pm, x)
                            }));
                        }
                        assert(pending_entry_ok(bv, cv, mv0, (id, pref.deep_view()))) by {
                            assert(pref.deep_view() =~= bl.subrange(0, n - 1));
                            assert forall|e: int| n - 1 <= e < bl.len() implies entry_blocked(
                                mv0,
                                cv,
                                bl[e],
                            ) by {
                                if e >= n {
                                    assert(pending_entry_ok(bv, cv, mv0, pv0[0]));
                                }
                            }
                        }
                        assert forall|j: int|
                            0 <= j < preferences.deep_view().len() implies pending_entry_ok(
                            bv,
                            cv,
                            matchings.deep_view(),
                            preferences.deep_view()[j],
                        ) by {
                            let pe = preferences.deep_view()[j];
                            if pe.0 == id {
                                lemma_pend_lookup_at(preferences.deep_view(), j);
                            } else {
                                let j0 = choose|j0: int| 0 <= j0 < pm.len() && pe == pm[j0];
                                assert(pending_entry_ok(bv, cv, mv0, pm[j0]));
                            }
                        }
                        // termination: the re-queued student's list is shorter
                        assert(pend_work(preferences.deep_view()) == pend_work(pm) + (n - 1)
                            + 1);
                        // one unfolding of the run
                        lemma_slot_idx_unique(cv, mv0, kk as int, course@);
                        assert(caps_ok(mv0, cv) && pend_wf(pv0));
                        assert(pv0.len() > 0 && pv0[0].1.len() == n && n > 0);
                        assert(pv0[0].1.last() == (course@, prio));
                        assert(cat_has(cv, course@));
                        assert(mv0[kk as int].1.len() == cur_len);
                        assert(cur_len == cat_cap(cv, course@) && cur_len > 0);
                        assert(mv0[kk as int].1.last() == low && !(low.1 < prio));
                        assert(pref.deep_view() == pv0[0].1.drop_last());
                        assert(spec_run(cv, bv, pv0, mv0, unmatched@) == spec_run(
                            cv,
                            bv,
                            spec_pend_insert(pv0.drop_first(), pv0[0].0, pv0[0].1.drop_last()),
                            mv0,
                            unmatched@,
                        ));
                        assert(preferences.deep_view() == spec_pend_insert(
                            pv0.drop_first(),
                            pv0[0].0,
                            pv0[0].1.drop_last(),
                        ));
                        assert(matchings.deep_view() == mv0);
                    }
                }
            }
        }
    }
    proof {
        assert forall|id: u32| #[trigger] pend01(preferences.deep_view(), id) == 0 by {
            if pend_has(preferences.deep_view(), id) {
                let j = choose|j: int|
                    0 <= j < preferences.deep_view().len() && preferences.deep_view()[j].0 == id;
            }
        }
        assert(preferences.deep_view().len() == preferences@.len());
        assert(spec_run(cv, bv, preferences.deep_view(), matchings.deep_view(), unmatched@)
            == Some((matchings.deep_view(), unmatched@)));
    }
    Ok(unmatched)
}

} // verus!
