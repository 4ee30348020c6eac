//! The mathematical model of the engine's working state.
//!
//! The pending pool and the assignment are association lists; this module
//! gives their views as sequences of pairs, the counting functions that state
//! the partition invariant (every applicant sits in exactly one place), and
//! the potential that proves the proposal loop terminates.

use vstd::prelude::*;
use crate::catalog::{CatView, cat_cap};
use crate::sorting::{Accepted, id_count, insert_desc, sort_desc_spec};

verus! {

/// One applicant's ranked preferences: (course name, priority), ascending.
pub type PrefView = Seq<(Seq<char>, u32)>;

/// The pending pool: (student id, remaining preferences), ascending by id.
pub type PendView = Seq<(u32, PrefView)>;

/// The assignment: (course name, accepted entrants sorted descending).
pub type MatchView = Seq<(Seq<char>, Seq<Accepted>)>;

/// Student identifiers strictly ascending: sorted, no repeats.
pub open spec fn pend_wf(p: PendView) -> bool {
    forall|i: int, j: int| 0 <= i < j < p.len() ==> p[i].0 < p[j].0
}

/// Whether the pool holds an entry for the student.
pub open spec fn pend_has(p: PendView, id: u32) -> bool {
    exists|i: int| 0 <= i < p.len() && p[i].0 == id
}

/// The index of the student's entry (meaningful under [`pend_has`]).
pub open spec fn pend_idx(p: PendView, id: u32) -> int {
    choose|i: int| 0 <= i < p.len() && p[i].0 == id
}

/// The student's preference list; empty when the student is absent.
pub open spec fn pend_lookup(p: PendView, id: u32) -> PrefView {
    if pend_has(p, id) {
        p[pend_idx(p, id)].1
    } else {
        Seq::empty()
    }
}

/// 1 when the pool holds the student, else 0.
pub open spec fn pend01(p: PendView, id: u32) -> nat {
    if pend_has(p, id) {
        1
    } else {
        0
    }
}

/// Under [`pend_wf`], any entry of the student is the looked-up one.
pub proof fn lemma_pend_lookup_at(p: PendView, i: int)
    requires
        pend_wf(p),
        0 <= i < p.len(),
    ensures
        pend_has(p, p[i].0),
        pend_lookup(p, p[i].0) == p[i].1,
        pend_idx(p, p[i].0) == i,
{
    let id = p[i].0;
    assert(pend_has(p, id));
    let j = pend_idx(p, id);
    if i < j {
        assert(p[i].0 < p[j].0);
    } else if j < i {
        assert(p[j].0 < p[i].0);
    }
}

/// Sorted insertion into the pool: the entry goes in front of the first
/// identifier that is not smaller, replacing it when it is the same.
pub open spec fn spec_pend_insert(p: PendView, id: u32, l: PrefView) -> PendView
    decreases p.len(),
{
    if p.len() == 0 {
        seq![(id, l)]
    } else if p[0].0 < id {
        seq![p[0]] + spec_pend_insert(p.drop_first(), id, l)
    } else if p[0].0 == id {
        seq![(id, l)] + p.drop_first()
    } else {
        seq![(id, l)] + p
    }
}

/// Inserting at the position the scan found matches the recursive insertion.
pub proof fn lemma_spec_pend_insert_at(p: PendView, id: u32, l: PrefView, i: int)
    requires
        0 <= i <= p.len(),
        forall|k: int| 0 <= k < i ==> p[k].0 < id,
        i < p.len() ==> p[i].0 >= id,
    ensures
        (i < p.len() && p[i].0 == id) ==> spec_pend_insert(p, id, l) == p.update(i, (id, l)),
        (i == p.len() || p[i].0 > id) ==> spec_pend_insert(p, id, l) == p.insert(i, (id, l)),
    decreases i,
{
    if p.len() == 0 {
        assert(spec_pend_insert(p, id, l) =~= p.insert(0, (id, l)));
    } else if i == 0 {
        if p[0].0 == id {
            assert(seq![(id, l)] + p.drop_first() =~= p.update(0, (id, l)));
        } else {
            assert(seq![(id, l)] + p =~= p.insert(0, (id, l)));
        }
    } else {
        assert(p[0].0 < id);
        lemma_spec_pend_insert_at(p.drop_first(), id, l, i - 1);
        if i < p.len() && p[i].0 == id {
            assert(p.drop_first()[i - 1] == p[i]);
            assert(seq![p[0]] + p.drop_first().update(i - 1, (id, l)) =~= p.update(i, (id, l)));
        } else {
            assert(seq![p[0]] + p.drop_first().insert(i - 1, (id, l)) =~= p.insert(i, (id, l)));
        }
    }
}

/// Inserting a fresh identifier adds that entry's work to the pool's.
pub proof fn lemma_spec_pend_insert_work(p: PendView, id: u32, l: PrefView)
    requires
        forall|k: int| 0 <= k < p.len() ==> p[k].0 != id,
    ensures
        pend_work(spec_pend_insert(p, id, l)) == pend_work(p) + l.len() + 1,
    decreases p.len(),
{
    if p.len() == 0 {
        let r = seq![(id, l)];
        assert(spec_pend_insert(p, id, l) == r);
        assert(r[0] == (id, l));
        assert(r.drop_first() =~= Seq::<(u32, PrefView)>::empty());
        assert(pend_work(r) == l.len() + 1 + pend_work(r.drop_first()));
    } else if p[0].0 < id {
        assert(forall|k: int|
            0 <= k < p.drop_first().len() ==> p.drop_first()[k] == p[k + 1]);
        lemma_spec_pend_insert_work(p.drop_first(), id, l);
        let r = seq![p[0]] + spec_pend_insert(p.drop_first(), id, l);
        assert(spec_pend_insert(p, id, l) == r);
        assert(r.len() > 0 && r[0] == p[0]);
        assert(r.drop_first() =~= spec_pend_insert(p.drop_first(), id, l));
        assert(pend_work(r) == p[0].1.len() + 1 + pend_work(r.drop_first()));
        assert(pend_work(p) == p[0].1.len() + 1 + pend_work(p.drop_first()));
    } else {
        assert(p[0].0 > id);
        let r = seq![(id, l)] + p;
        assert(spec_pend_insert(p, id, l) == r);
        assert(r.len() > 0 && r[0] == (id, l));
        assert(r.drop_first() =~= p);
        assert(pend_work(r) == l.len() + 1 + pend_work(r.drop_first()));
    }
}

/// How many entrants with the given identifier the whole assignment holds.
pub open spec fn total_count(m: MatchView, id: u32) -> nat
    decreases m.len(),
{
    if m.len() == 0 {
        0
    } else {
        id_count(m[0].1, id) + total_count(m.drop_first(), id)
    }
}

/// How often the identifier occurs among the unmatched.
pub open spec fn ucount(u: Seq<u32>, id: u32) -> nat
    decreases u.len(),
{
    if u.len() == 0 {
        0
    } else {
        (if u[0] == id {
            1nat
        } else {
            0nat
        }) + ucount(u.drop_first(), id)
    }
}

pub proof fn lemma_ucount_push(u: Seq<u32>, x: u32, id: u32)
    ensures
        ucount(u.push(x), id) == ucount(u, id) + (if x == id {
            1nat
        } else {
            0nat
        }),
    decreases u.len(),
{
    if u.len() == 0 {
        assert(u.push(x).drop_first() =~= Seq::<u32>::empty());
        assert(u.push(x)[0] == x);
        assert(ucount(u.push(x), id) == (if x == id {
            1nat
        } else {
            0nat
        }) + ucount(u.push(x).drop_first(), id));
        assert(ucount(Seq::<u32>::empty(), id) == 0);
        assert(ucount(u, id) == 0);
    } else {
        assert(u.push(x).drop_first() =~= u.drop_first().push(x));
        assert(u.push(x)[0] == u[0]);
        lemma_ucount_push(u.drop_first(), x, id);
        assert(ucount(u.push(x), id) == (if u[0] == id {
            1nat
        } else {
            0nat
        }) + ucount(u.push(x).drop_first(), id));
        assert(ucount(u, id) == (if u[0] == id {
            1nat
        } else {
            0nat
        }) + ucount(u.drop_first(), id));
    }
}

/// A positive count names an element of the sequence.
pub proof fn lemma_ucount_contains(u: Seq<u32>, id: u32)
    requires
        ucount(u, id) > 0,
    ensures
        u.contains(id),
    decreases u.len(),
{
    if u.len() > 0 {
        if u[0] == id {
        } else {
            lemma_ucount_contains(u.drop_first(), id);
            let i = choose|i: int| 0 <= i < u.drop_first().len() && u.drop_first()[i] == id;
            assert(u[i + 1] == id);
        }
    }
}

pub proof fn lemma_id_count_push(s: Seq<Accepted>, e: Accepted, id: u32)
    ensures
        id_count(s.push(e), id) == id_count(s, id) + (if e.0 == id {
            1nat
        } else {
            0nat
        }),
    decreases s.len(),
{
    if s.len() == 0 {
        assert(s.push(e).drop_first() =~= Seq::<Accepted>::empty());
        assert(s.push(e)[0] == e);
        assert(id_count(s.push(e), id) == (if e.0 == id {
            1nat
        } else {
            0nat
        }) + id_count(s.push(e).drop_first(), id));
        assert(id_count(Seq::<Accepted>::empty(), id) == 0);
    } else {
        assert(s.push(e).drop_first() =~= s.drop_first().push(e));
        assert(s.push(e)[0] == s[0]);
        lemma_id_count_push(s.drop_first(), e, id);
        assert(id_count(s.push(e), id) == (if s[0].0 == id {
            1nat
        } else {
            0nat
        }) + id_count(s.push(e).drop_first(), id));
        assert(id_count(s, id) == (if s[0].0 == id {
            1nat
        } else {
            0nat
        }) + id_count(s.drop_first(), id));
    }
}

/// Splits a non-empty list into its front and its last element.
pub proof fn lemma_id_count_drop_last(s: Seq<Accepted>, id: u32)
    requires
        s.len() > 0,
    ensures
        id_count(s, id) == id_count(s.drop_last(), id) + (if s.last().0 == id {
            1nat
        } else {
            0nat
        }),
{
    assert(s.drop_last().push(s.last()) =~= s);
    lemma_id_count_push(s.drop_last(), s.last(), id);
}

/// An element of the list counts at least once under its identifier.
pub proof fn lemma_id_count_at(s: Seq<Accepted>, i: int)
    requires
        0 <= i < s.len(),
    ensures
        id_count(s, s[i].0) > 0,
    decreases s.len(),
{
    if i > 0 {
        assert(s.drop_first()[i - 1] == s[i]);
        lemma_id_count_at(s.drop_first(), i - 1);
    }
}

/// Replacing one slot's list changes the total by the difference at that
/// slot.
pub proof fn lemma_total_count_update(m: MatchView, kk: int, nl: Seq<Accepted>, id: u32)
    requires
        0 <= kk < m.len(),
    ensures
        total_count(m.update(kk, (m[kk].0, nl)), id) + id_count(m[kk].1, id) == total_count(
            m,
            id,
        ) + id_count(nl, id),
    decreases m.len(),
{
    let m2 = m.update(kk, (m[kk].0, nl));
    if kk == 0 {
        assert(m2.drop_first() =~= m.drop_first());
        assert(m2[0].1 == nl);
    } else {
        assert(m2[0] == m[0]);
        assert(m2.drop_first() =~= m.drop_first().update(kk - 1, (m.drop_first()[kk - 1].0, nl)));
        lemma_total_count_update(m.drop_first(), kk - 1, nl, id);
    }
}

/// A slot whose list counts the identifier contributes to the total.
pub proof fn lemma_total_count_at(m: MatchView, k: int, id: u32)
    requires
        0 <= k < m.len(),
    ensures
        total_count(m, id) >= id_count(m[k].1, id),
    decreases m.len(),
{
    if k > 0 {
        assert(m.drop_first()[k - 1] == m[k]);
        lemma_total_count_at(m.drop_first(), k - 1, id);
    }
}

/// A positive count names an entry of the list.
pub proof fn lemma_id_count_pos(s: Seq<Accepted>, id: u32)
    requires
        id_count(s, id) > 0,
    ensures
        exists|i: int| 0 <= i < s.len() && s[i].0 == id,
    decreases s.len(),
{
    if s.len() > 0 {
        if s[0].0 == id {
        } else {
            lemma_id_count_pos(s.drop_first(), id);
            let i = choose|i: int| 0 <= i < s.drop_first().len() && s.drop_first()[i].0 == id;
            assert(s[i + 1].0 == id);
        }
    }
}

/// A positive total names an accepted entrant in some slot.
pub proof fn lemma_total_count_pos(m: MatchView, id: u32)
    requires
        total_count(m, id) > 0,
    ensures
        exists|k: int, i: int|
            0 <= k < m.len() && 0 <= i < m[k].1.len() && m[k].1[i].0 == id,
    decreases m.len(),
{
    if m.len() > 0 {
        if id_count(m[0].1, id) > 0 {
            lemma_id_count_pos(m[0].1, id);
            let i = choose|i: int| 0 <= i < m[0].1.len() && m[0].1[i].0 == id;
            assert(0 <= 0 < m.len() && 0 <= i < m[0].1.len() && m[0].1[i].0 == id);
        } else {
            lemma_total_count_pos(m.drop_first(), id);
            let (k, i) = choose|k: int, i: int|
                0 <= k < m.drop_first().len() && 0 <= i < m.drop_first()[k].1.len()
                    && m.drop_first()[k].1[i].0 == id;
            assert(m[k + 1] == m.drop_first()[k]);
            assert(m[k + 1].1[i].0 == id);
        }
    }
}

/// Two distinct positions with one identifier count at least twice.
pub proof fn lemma_id_count_two(s: Seq<Accepted>, i1: int, i2: int)
    requires
        0 <= i1 < i2 < s.len(),
        s[i1].0 == s[i2].0,
    ensures
        id_count(s, s[i1].0) >= 2,
    decreases s.len(),
{
    if i1 == 0 {
        assert(s.drop_first()[i2 - 1] == s[i2]);
        lemma_id_count_at(s.drop_first(), i2 - 1);
    } else {
        assert(s.drop_first()[i1 - 1] == s[i1]);
        assert(s.drop_first()[i2 - 1] == s[i2]);
        lemma_id_count_two(s.drop_first(), i1 - 1, i2 - 1);
    }
}

/// The total dominates the sum over any two distinct slots.
pub proof fn lemma_total_count_two_slots(m: MatchView, k1: int, k2: int, id: u32)
    requires
        0 <= k1 < k2 < m.len(),
    ensures
        total_count(m, id) >= id_count(m[k1].1, id) + id_count(m[k2].1, id),
    decreases m.len(),
{
    if k1 == 0 {
        assert(m.drop_first()[k2 - 1] == m[k2]);
        lemma_total_count_at(m.drop_first(), k2 - 1, id);
    } else {
        assert(m.drop_first()[k1 - 1] == m[k1]);
        assert(m.drop_first()[k2 - 1] == m[k2]);
        lemma_total_count_two_slots(m.drop_first(), k1 - 1, k2 - 1, id);
    }
}

/// The headroom a slot's list leaves below the largest priority, summed.
pub open spec fn score_room(s: Seq<Accepted>) -> int
    decreases s.len(),
{
    if s.len() == 0 {
        0
    } else {
        (0x1_0000_0000 - s[0].1) + score_room(s.drop_first())
    }
}

pub proof fn lemma_score_room_nonneg(s: Seq<Accepted>)
    ensures
        score_room(s) >= s.len(),
    decreases s.len(),
{
    if s.len() > 0 {
        lemma_score_room_nonneg(s.drop_first());
    }
}

pub proof fn lemma_score_room_push(s: Seq<Accepted>, e: Accepted)
    ensures
        score_room(s.push(e)) == score_room(s) + (0x1_0000_0000 - e.1),
    decreases s.len(),
{
    if s.len() == 0 {
        assert(s.push(e).drop_first() =~= Seq::<Accepted>::empty());
        assert(s.push(e)[0] == e);
        assert(score_room(s.push(e)) == (0x1_0000_0000 - e.1) + score_room(
            s.push(e).drop_first(),
        ));
        assert(score_room(Seq::<Accepted>::empty()) == 0);
    } else {
        assert(s.push(e).drop_first() =~= s.drop_first().push(e));
        assert(s.push(e)[0] == s[0]);
        lemma_score_room_push(s.drop_first(), e);
        assert(score_room(s.push(e)) == (0x1_0000_0000 - s[0].1) + score_room(
            s.push(e).drop_first(),
        ));
        assert(score_room(s) == (0x1_0000_0000 - s[0].1) + score_room(s.drop_first()));
    }
}

pub proof fn lemma_score_room_drop_last(s: Seq<Accepted>)
    requires
        s.len() > 0,
    ensures
        score_room(s) == score_room(s.drop_last()) + (0x1_0000_0000 - s.last().1),
{
    assert(s.drop_last().push(s.last()) =~= s);
    lemma_score_room_push(s.drop_last(), s.last());
}

pub proof fn lemma_score_room_insert_desc(e: Accepted, s: Seq<Accepted>)
    ensures
        score_room(insert_desc(e, s)) == score_room(s) + (0x1_0000_0000 - e.1),
    decreases s.len(),
{
    if s.len() == 0 {
        let r = seq![e];
        assert(insert_desc(e, s) == r);
        assert(r[0] == e);
        assert(r.drop_first() =~= Seq::<Accepted>::empty());
        assert(score_room(r) == (0x1_0000_0000 - e.1) + score_room(r.drop_first()));
        assert(score_room(Seq::<Accepted>::empty()) == 0);
        assert(score_room(s) == 0);
    } else if s[0].1 > e.1 {
        lemma_score_room_insert_desc(e, s.drop_first());
        let r = seq![s[0]] + insert_desc(e, s.drop_first());
        assert(insert_desc(e, s) == r);
        assert(r.len() > 0 && r[0] == s[0]);
        assert(r.drop_first() =~= insert_desc(e, s.drop_first()));
        assert(score_room(r) == (0x1_0000_0000 - s[0].1) + score_room(r.drop_first()));
        assert(score_room(s) == (0x1_0000_0000 - s[0].1) + score_room(s.drop_first()));
    } else {
        let r = seq![e] + s;
        assert(insert_desc(e, s) == r);
        assert(r.len() > 0 && r[0] == e);
        assert(r.drop_first() =~= s);
        assert(score_room(r) == (0x1_0000_0000 - e.1) + score_room(r.drop_first()));
    }
}

pub proof fn lemma_score_room_sort(s: Seq<Accepted>)
    ensures
        score_room(sort_desc_spec(s)) == score_room(s),
    decreases s.len(),
{
    if s.len() > 0 {
        lemma_score_room_sort(s.drop_first());
        lemma_score_room_insert_desc(s[0], sort_desc_spec(s.drop_first()));
    }
}

/// What a slot still has to gain: free seats weigh most, then the gap
/// between each accepted priority and the largest possible one.
pub open spec fn slot_pot(cap: u8, s: Seq<Accepted>) -> int {
    (cap - s.len()) * 0x1_0000_0001 + score_room(s)
}

/// The whole assignment's potential.  It strictly drops on every acceptance
/// and on every displacement, which is what bounds the proposal loop.
pub open spec fn total_pot(c: CatView, m: MatchView) -> int
    decreases m.len(),
{
    if m.len() == 0 {
        0
    } else {
        slot_pot(cat_cap(c, m[0].0), m[0].1) + total_pot(c, m.drop_first())
    }
}

pub proof fn lemma_total_pot_nonneg(c: CatView, m: MatchView)
    requires
        forall|k: int| 0 <= k < m.len() ==> m[k].1.len() <= cat_cap(c, m[k].0),
    ensures
        total_pot(c, m) >= 0,
    decreases m.len(),
{
    if m.len() > 0 {
        lemma_score_room_nonneg(m[0].1);
        assert(slot_pot(cat_cap(c, m[0].0), m[0].1) >= 0) by {
            assert(cat_cap(c, m[0].0) - m[0].1.len() >= 0);
            assert((cat_cap(c, m[0].0) - m[0].1.len()) * 0x1_0000_0001 >= 0) by (nonlinear_arith)
                requires
                    cat_cap(c, m[0].0) - m[0].1.len() >= 0,
            ;
        }
        assert(forall|k: int|
            0 <= k < m.drop_first().len() ==> m.drop_first()[k] == m[k + 1]);
        lemma_total_pot_nonneg(c, m.drop_first());
    }
}

/// Replacing one slot's list changes the potential by the difference at that
/// slot.
pub proof fn lemma_total_pot_update(c: CatView, m: MatchView, kk: int, nl: Seq<Accepted>)
    requires
        0 <= kk < m.len(),
    ensures
        total_pot(c, m.update(kk, (m[kk].0, nl))) - total_pot(c, m) == slot_pot(
            cat_cap(c, m[kk].0),
            nl,
        ) - slot_pot(cat_cap(c, m[kk].0), m[kk].1),
    decreases m.len(),
{
    let m2 = m.update(kk, (m[kk].0, nl));
    if kk == 0 {
        assert(m2.drop_first() =~= m.drop_first());
        assert(m2[0].0 == m[0].0 && m2[0].1 == nl);
    } else {
        assert(m2[0] == m[0]);
        assert(m2.drop_first() =~= m.drop_first().update(kk - 1, (m.drop_first()[kk - 1].0, nl)));
        lemma_total_pot_update(c, m.drop_first(), kk - 1, nl);
    }
}

/// How much proposing work the pool still holds: one step per remaining
/// preference, plus one step per pending student for the final dequeue.
pub open spec fn pend_work(p: PendView) -> nat
    decreases p.len(),
{
    if p.len() == 0 {
        0
    } else {
        p[0].1.len() + 1 + pend_work(p.drop_first())
    }
}

pub proof fn lemma_pend_work_insert(p: PendView, i: int, e: (u32, PrefView))
    requires
        0 <= i <= p.len(),
    ensures
        pend_work(p.insert(i, e)) == pend_work(p) + e.1.len() + 1,
    decreases i,
{
    let p2 = p.insert(i, e);
    if i == 0 {
        assert(p2.drop_first() =~= p);
        assert(p2[0] == e);
    } else {
        assert(p2[0] == p[0]);
        assert(p2.drop_first() =~= p.drop_first().insert(i - 1, e));
        lemma_pend_work_insert(p.drop_first(), i - 1, e);
    }
}

} // verus!
