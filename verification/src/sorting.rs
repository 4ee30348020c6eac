//! Stable descending sort of a slot's accepted entrants.
//!
//! A slot's assignment list holds `(student, priority)` pairs and is kept
//! sorted descending by priority, so the weakest accepted entrant is always
//! the last element.  [`sort_desc_spec`] is the mathematical sort (a stable
//! insertion sort, the order `Vec::sort_by` with a descending comparator
//! produces), and [`sort_desc`] computes exactly it.

use vstd::prelude::*;

verus! {

/// An accepted entrant: student identifier and the priority the slot
/// accepted them with.
pub type Accepted = (u32, u32);

/// Descending by priority (ties allowed).
pub open spec fn sorted_desc(s: Seq<Accepted>) -> bool {
    forall|i: int, j: int| 0 <= i < j < s.len() ==> s[i].1 >= s[j].1
}

/// Stable descending insertion: `e` goes in front of the first element whose
/// priority does not exceed `e`'s, so earlier elements win ties.
pub open spec fn insert_desc(e: Accepted, s: Seq<Accepted>) -> Seq<Accepted>
    decreases s.len(),
{
    if s.len() == 0 {
        seq![e]
    } else if s[0].1 > e.1 {
        seq![s[0]] + insert_desc(e, s.drop_first())
    } else {
        seq![e] + s
    }
}

/// Stable descending insertion sort.
pub open spec fn sort_desc_spec(s: Seq<Accepted>) -> Seq<Accepted>
    decreases s.len(),
{
    if s.len() == 0 {
        Seq::<Accepted>::empty()
    } else {
        insert_desc(s[0], sort_desc_spec(s.drop_first()))
    }
}

/// How often a student identifier occurs among the accepted entrants.
pub open spec fn id_count(s: Seq<Accepted>, id: u32) -> nat
    decreases s.len(),
{
    if s.len() == 0 {
        0
    } else {
        (if s[0].0 == id {
            1nat
        } else {
            0nat
        }) + id_count(s.drop_first(), id)
    }
}

pub proof fn lemma_insert_desc_len(e: Accepted, s: Seq<Accepted>)
    ensures
        insert_desc(e, s).len() == s.len() + 1,
    decreases s.len(),
{
    if s.len() > 0 && s[0].1 > e.1 {
        lemma_insert_desc_len(e, s.drop_first());
    }
}

pub proof fn lemma_insert_desc_sorted(e: Accepted, s: Seq<Accepted>)
    requires
        sorted_desc(s),
    ensures
        sorted_desc(insert_desc(e, s)),
    decreases s.len(),
{
    lemma_insert_desc_len(e, s);
    if s.len() > 0 && s[0].1 > e.1 {
        assert(sorted_desc(s.drop_first()));
        lemma_insert_desc_sorted(e, s.drop_first());
        lemma_insert_desc_contains(e, s.drop_first());
        let t = insert_desc(e, s.drop_first());
        let r = seq![s[0]] + t;
        assert forall|i: int, j: int| 0 <= i < j < r.len() implies r[i].1 >= r[j].1 by {
            if i == 0 {
                assert(t.contains(t[j - 1]));
                assert(t[j - 1] == e || s.drop_first().contains(t[j - 1]));
            }
        }
    }
}

/// An element sits in `[h] + t` exactly when it is `h` or sits in `t`.
proof fn lemma_cons_contains(h: Accepted, t: Seq<Accepted>, x: Accepted)
    ensures
        (seq![h] + t).contains(x) <==> (x == h || t.contains(x)),
{
    let r = seq![h] + t;
    if r.contains(x) {
        let i = choose|i: int| 0 <= i < r.len() && r[i] == x;
        if i > 0 {
            assert(t[i - 1] == x);
            assert(t.contains(x));
        }
    }
    if x == h {
        assert(r[0] == x);
        assert(r.contains(x));
    }
    if t.contains(x) {
        let i = choose|i: int| 0 <= i < t.len() && t[i] == x;
        assert(r[i + 1] == x);
        assert(r.contains(x));
    }
}

/// A non-empty sequence holds an element exactly when its head is it or its
/// tail holds it.
proof fn lemma_uncons_contains(s: Seq<Accepted>, x: Accepted)
    requires
        s.len() > 0,
    ensures
        s.contains(x) <==> (x == s[0] || s.drop_first().contains(x)),
{
    assert(seq![s[0]] + s.drop_first() =~= s);
    lemma_cons_contains(s[0], s.drop_first(), x);
}

/// Insertion adds exactly `e` to the elements.
pub proof fn lemma_insert_desc_mem(e: Accepted, s: Seq<Accepted>, x: Accepted)
    ensures
        insert_desc(e, s).contains(x) <==> (x == e || s.contains(x)),
    decreases s.len(),
{
    if s.len() == 0 {
        lemma_cons_contains(e, Seq::<Accepted>::empty(), x);
        assert(seq![e] + Seq::<Accepted>::empty() =~= seq![e]);
    } else if s[0].1 > e.1 {
        lemma_insert_desc_mem(e, s.drop_first(), x);
        lemma_cons_contains(s[0], insert_desc(e, s.drop_first()), x);
        lemma_uncons_contains(s, x);
    } else {
        lemma_cons_contains(e, s, x);
    }
}

/// The `forall` form of [`lemma_insert_desc_mem`].
pub proof fn lemma_insert_desc_contains(e: Accepted, s: Seq<Accepted>)
    ensures
        forall|x: Accepted|
            #[trigger] insert_desc(e, s).contains(x) <==> (x == e || s.contains(x)),
{
    assert forall|x: Accepted|
        #[trigger] insert_desc(e, s).contains(x) <==> (x == e || s.contains(x)) by {
        lemma_insert_desc_mem(e, s, x);
    }
}

pub proof fn lemma_insert_desc_count(e: Accepted, s: Seq<Accepted>, id: u32)
    ensures
        id_count(insert_desc(e, s), id) == id_count(s, id) + (if e.0 == id {
            1nat
        } else {
            0nat
        }),
    decreases s.len(),
{
    if s.len() == 0 {
        let r = seq![e];
        assert(insert_desc(e, s) == r);
        assert(r.drop_first() =~= Seq::<Accepted>::empty());
        assert(id_count(r, id) == (if e.0 == id {
            1nat
        } else {
            0nat
        }) + id_count(r.drop_first(), id));
    } else if s[0].1 > e.1 {
        lemma_insert_desc_count(e, s.drop_first(), id);
        let r = seq![s[0]] + insert_desc(e, s.drop_first());
        assert(insert_desc(e, s) == r);
        assert(r.len() > 0 && r[0] == s[0]);
        assert(r.drop_first() =~= insert_desc(e, s.drop_first()));
    } else {
        let r = seq![e] + s;
        assert(insert_desc(e, s) == r);
        assert(r.len() > 0 && r[0] == e);
        assert(r.drop_first() =~= s);
    }
}

pub proof fn lemma_sort_desc_len(s: Seq<Accepted>)
    ensures
        sort_desc_spec(s).len() == s.len(),
    decreases s.len(),
{
    if s.len() > 0 {
        lemma_sort_desc_len(s.drop_first());
        lemma_insert_desc_len(s[0], sort_desc_spec(s.drop_first()));
    }
}

pub proof fn lemma_sort_desc_sorted(s: Seq<Accepted>)
    ensures
        sorted_desc(sort_desc_spec(s)),
    decreases s.len(),
{
    if s.len() > 0 {
        lemma_sort_desc_sorted(s.drop_first());
        lemma_insert_desc_sorted(s[0], sort_desc_spec(s.drop_first()));
    }
}

/// Sorting keeps exactly the original elements.
pub proof fn lemma_sort_desc_mem(s: Seq<Accepted>, x: Accepted)
    ensures
        sort_desc_spec(s).contains(x) <==> s.contains(x),
    decreases s.len(),
{
    if s.len() == 0 {
        if sort_desc_spec(s).contains(x) {
            let i = choose|i: int|
                0 <= i < sort_desc_spec(s).len() && sort_desc_spec(s)[i] == x;
        }
        if s.contains(x) {
            let i = choose|i: int| 0 <= i < s.len() && s[i] == x;
        }
    } else {
        lemma_sort_desc_mem(s.drop_first(), x);
        lemma_insert_desc_mem(s[0], sort_desc_spec(s.drop_first()), x);
        lemma_uncons_contains(s, x);
    }
}

/// The `forall` form of [`lemma_sort_desc_mem`].
pub proof fn lemma_sort_desc_contains(s: Seq<Accepted>)
    ensures
        forall|x: Accepted| #[trigger] sort_desc_spec(s).contains(x) <==> s.contains(x),
{
    assert forall|x: Accepted|
        #[trigger] sort_desc_spec(s).contains(x) <==> s.contains(x) by {
        lemma_sort_desc_mem(s, x);
    }
}

pub proof fn lemma_sort_desc_count(s: Seq<Accepted>, id: u32)
    ensures
        id_count(sort_desc_spec(s), id) == id_count(s, id),
    decreases s.len(),
{
    if s.len() > 0 {
        lemma_sort_desc_count(s.drop_first(), id);
        lemma_insert_desc_count(s[0], sort_desc_spec(s.drop_first()), id);
    }
}

/// Sorting an already descending list is a no-op: the order is unchanged and
/// nothing is dropped or merged.
pub proof fn lemma_sort_desc_of_sorted(s: Seq<Accepted>)
    requires
        sorted_desc(s),
    ensures
        sort_desc_spec(s) == s,
    decreases s.len(),
{
    if s.len() > 0 {
        assert(sorted_desc(s.drop_first()));
        lemma_sort_desc_of_sorted(s.drop_first());
        let t = s.drop_first();
        if t.len() == 0 {
            assert(insert_desc(s[0], t) =~= s);
        } else {
            assert(s[0].1 >= t[0].1);
            assert(insert_desc(s[0], t) == seq![s[0]] + t);
            assert(seq![s[0]] + t =~= s);
        }
    }
}

/// Inserting at the position the scan found matches the recursive insertion.
proof fn lemma_insert_desc_at(e: Accepted, s: Seq<Accepted>, i: int)
    requires
        0 <= i <= s.len(),
        forall|k: int| 0 <= k < i ==> s[k].1 > e.1,
        i < s.len() ==> s[i].1 <= e.1,
    ensures
        insert_desc(e, s) == s.insert(i, e),
    decreases i,
{
    if s.len() == 0 {
        assert(insert_desc(e, s) =~= s.insert(0, e));
    } else if i == 0 {
        assert(seq![e] + s =~= s.insert(0, e));
    } else {
        assert(s[0].1 > e.1);
        lemma_insert_desc_at(e, s.drop_first(), i - 1);
        assert(seq![s[0]] + s.drop_first().insert(i - 1, e) =~= s.insert(i, e));
    }
}

/// Inserts one entrant into a descending list, keeping it descending and
/// stable.
fn insert_sorted(acc: &mut Vec<Accepted>, e: Accepted)
    requires
        sorted_desc(old(acc)@),
    ensures
        final(acc)@ == insert_desc(e, old(acc)@),
{
    let mut i: usize = 0;
    while i < acc.len() && acc[i].1 > e.1
        invariant
            0 <= i <= acc@.len(),
            acc@ == old(acc)@,
            forall|k: int| 0 <= k < i ==> acc@[k].1 > e.1,
        decreases acc@.len() - i,
    {
        i += 1;
    }
    proof {
        lemma_insert_desc_at(e, acc@, i as int);
    }
    acc.insert(i, e);
}

/// Sorts the entrants descending by priority, stably: the result is exactly
/// [`sort_desc_spec`] of the input.
pub fn sort_desc(v: Vec<Accepted>) -> (r: Vec<Accepted>)
    ensures
        r@ == sort_desc_spec(v@),
{
    let mut acc: Vec<Accepted> = Vec::new();
    let mut i: usize = v.len();
    while i > 0
        invariant
            0 <= i <= v@.len(),
            sorted_desc(acc@),
            acc@ == sort_desc_spec(v@.subrange(i as int, v@.len() as int)),
        decreases i,
    {
        i -= 1;
        let ghost pre = acc@;
        let ghost sub = v@.subrange(i as int, v@.len() as int);
        insert_sorted(&mut acc, v[i]);
        proof {
            assert(sub.drop_first() =~= v@.subrange(i + 1, v@.len() as int));
            assert(sub[0] == v@[i as int]);
            lemma_insert_desc_sorted(v@[i as int], pre);
        }
    }
    proof {
        assert(v@.subrange(0, v@.len() as int) =~= v@);
    }
    acc
}

} // verus!
