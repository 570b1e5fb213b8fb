//! Deterministic enumeration of ID sets: every algorithm that walks a hashed
//! collection walks its keys in increasing order.
use std::collections::{HashMap, HashSet};
use vstd::prelude::*;

verus! {

broadcast use vstd::std_specs::hash::group_hash_axioms;

/// The sequence is strictly increasing.
pub open spec fn ascending(q: Seq<u32>) -> bool {
    forall|i: int, j: int| 0 <= i < j < q.len() ==> q[i] < q[j]
}

/// The elements of a finite set of IDs, in increasing order.
pub open spec fn ordered(s: Set<u32>) -> Seq<u32> {
    choose|q: Seq<u32>| ascending(q) && q.to_set() == s
}

/// Two strictly increasing sequences with the same elements are equal.
pub proof fn lemma_ascending_unique(a: Seq<u32>, b: Seq<u32>)
    requires
        ascending(a),
        ascending(b),
        a.to_set() == b.to_set(),
    ensures
        a == b,
    decreases a.len(),
{
    if a.len() == 0 {
        if b.len() > 0 {
            assert(b.to_set().contains(b[0]));
        }
    } else if b.len() == 0 {
        assert(a.to_set().contains(a[0]));
    } else {
        assert(b.to_set().contains(a[0]));
        assert(a.to_set().contains(b[0]));
        let ka = choose|k: int| 0 <= k < b.len() && b[k] == a[0];
        let kb = choose|k: int| 0 <= k < a.len() && a[k] == b[0];
        assert(a[0] == b[0]) by {
            if a[0] < b[0] {
                assert(ka > 0 ==> b[0] < b[ka]);
            } else if b[0] < a[0] {
                assert(kb > 0 ==> a[0] < a[kb]);
            }
        }
        let ta = a.drop_first();
        let tb = b.drop_first();
        assert(ta.to_set() =~= tb.to_set()) by {
            assert forall|x: u32| ta.to_set().contains(x) implies tb.to_set().contains(x) by {
                let i = choose|i: int| 0 <= i < ta.len() && ta[i] == x;
                assert(a.to_set().contains(x));
                let j = choose|j: int| 0 <= j < b.len() && b[j] == x;
                assert(a[0] < a[i + 1]);
                if j == 0 {
                    assert(false);
                }
                assert(tb[j - 1] == x);
            }
            assert forall|x: u32| tb.to_set().contains(x) implies ta.to_set().contains(x) by {
                let i = choose|i: int| 0 <= i < tb.len() && tb[i] == x;
                assert(b.to_set().contains(x));
                let j = choose|j: int| 0 <= j < a.len() && a[j] == x;
                assert(b[0] < b[i + 1]);
                if j == 0 {
                    assert(false);
                }
                assert(ta[j - 1] == x);
            }
        }
        lemma_ascending_unique(ta, tb);
        assert(a =~= seq![a[0]] + ta);
        assert(b =~= seq![b[0]] + tb);
    }
}

/// A strictly increasing sequence is the ordered enumeration of its elements.
pub proof fn lemma_ordered_of(q: Seq<u32>)
    requires
        ascending(q),
    ensures
        ordered(q.to_set()) == q,
{
    let s = q.to_set();
    assert(ascending(q) && q.to_set() == s);
    let o = ordered(s);
    lemma_ascending_unique(o, q);
}

/// Every set of IDs is finite.
pub proof fn lemma_ids_finite(s: Set<u32>)
    ensures
        s.finite(),
{
    <u32 as vstd::set_lib::FiniteFull>::full_properties();
    assert(Set::<u32>::full().finite());
    assert(s.subset_of(Set::<u32>::full()));
    vstd::set_lib::lemma_set_subset_finite(Set::<u32>::full(), s);
}

proof fn lemma_max_exists(s: Set<u32>)
    requires
        s.finite(),
        s.len() > 0,
    ensures
        exists|m: u32| s.contains(m) && forall|x: u32| #[trigger] s.contains(x) ==> x <= m,
    decreases s.len(),
{
    let x = s.choose();
    let t = s.remove(x);
    if t.len() == 0 {
        assert forall|y: u32| #[trigger] s.contains(y) implies y <= x by {
            if y != x {
                assert(t.contains(y));
            }
        }
    } else {
        lemma_max_exists(t);
        let m = choose|m: u32| t.contains(m) && forall|y: u32| #[trigger] t.contains(y) ==> y <= m;
        if x > m {
            assert forall|y: u32| #[trigger] s.contains(y) implies y <= x by {
                if y != x {
                    assert(t.contains(y));
                }
            }
        } else {
            assert forall|y: u32| #[trigger] s.contains(y) implies y <= m by {
                if y != x {
                    assert(t.contains(y));
                }
            }
        }
    }
}

/// `ordered` enumerates every set of IDs, in increasing order.
pub proof fn lemma_ordered(s: Set<u32>)
    ensures
        ascending(ordered(s)),
        ordered(s).to_set() == s,
    decreases s.len(),
{
    lemma_ids_finite(s);
    if s.len() == 0 {
        assert(s =~= Set::empty());
        assert(Seq::<u32>::empty().to_set() =~= s);
        assert(ascending(Seq::<u32>::empty()));
    } else {
        lemma_max_exists(s);
        let m = choose|m: u32| s.contains(m) && forall|x: u32| #[trigger] s.contains(x) ==> x <= m;
        let t = s.remove(m);
        lemma_ordered(t);
        let q = ordered(t).push(m);
        lemma_push_to_set(ordered(t), m);
        assert(t.insert(m) =~= s);
        assert forall|i: int, j: int| 0 <= i < j < q.len() implies q[i] < q[j] by {
            if j == q.len() - 1 {
                assert(ordered(t).to_set().contains(q[i]));
                assert(s.contains(q[i]));
            }
        }
        assert(ascending(q) && q.to_set() == s);
    }
}

/// Appending an element adds it to the element set.
pub proof fn lemma_push_to_set<T>(q: Seq<T>, x: T)
    ensures
        q.push(x).to_set() == q.to_set().insert(x),
{
    assert forall|y: T| #[trigger] q.push(x).contains(y) implies q.to_set().insert(x).contains(y) by {
        let k = choose|k: int| 0 <= k < q.len() + 1 && q.push(x)[k] == y;
        if k < q.len() {
            assert(q[k] == y);
        }
    }
    assert forall|y: T| #[trigger] q.to_set().insert(x).contains(y) implies q.push(x).contains(y) by {
        if y == x {
            assert(q.push(x)[q.len() as int] == x);
        } else {
            let k = choose|k: int| 0 <= k < q.len() && q[k] == y;
            assert(q.push(x)[k] == y);
        }
    }
    assert(q.push(x).to_set() =~= q.to_set().insert(x));
}

/// Inserts `x` at its place in a strictly increasing vector that lacks it.
fn insert_ascending(v: &mut Vec<u32>, x: u32)
    requires
        ascending(old(v)@),
        !old(v)@.contains(x),
    ensures
        ascending(final(v)@),
        final(v)@.to_set() == old(v)@.to_set().insert(x),
        final(v)@.len() == old(v)@.len() + 1,
{
    let mut pos: usize = 0;
    while pos < v.len() && v[pos] < x
        invariant
            pos <= v@.len(),
            forall|k: int| 0 <= k < pos ==> v@[k] < x,
        decreases v@.len() - pos,
    {
        pos = pos + 1;
    }
    let ghost before = v@;
    v.insert(pos, x);
    assert(v@ =~= before.subrange(0, pos as int).push(x) + before.subrange(pos as int, before.len() as int));
    assert forall|i: int, j: int| 0 <= i < j < v@.len() implies v@[i] < v@[j] by {
        if pos < before.len() {
            assert(before[pos as int] != x);
            assert(before.contains(before[pos as int]));
        }
    }
    assert(v@.to_set() =~= before.to_set().insert(x)) by {
        assert forall|y: u32| before.to_set().insert(y).contains(y) implies true by {}
        assert forall|y: u32| #[trigger] before.to_set().insert(x).contains(y) implies v@.contains(y) by {
            if y != x {
                let k = choose|k: int| 0 <= k < before.len() && before[k] == y;
                if k < pos {
                    assert(v@[k] == y);
                } else {
                    assert(v@[k + 1] == y);
                }
            } else {
                assert(v@[pos as int] == x);
            }
        }
        assert forall|y: u32| #[trigger] v@.contains(y) implies before.to_set().insert(x).contains(y) by {
            let k = choose|k: int| 0 <= k < v@.len() && v@[k] == y;
            if k < pos {
                assert(before[k] == y);
            } else if k > pos {
                assert(before[k - 1] == y);
            }
        }
    }
}

/// The members of a set of IDs in increasing order.
pub fn sorted_ids(s: &HashSet<u32>) -> (r: Vec<u32>)
    ensures
        r@ == ordered(s@),
        ascending(r@),
        r@.to_set() == s@,
{
    let mut r: Vec<u32> = Vec::new();
    for x in it: s.iter()
        invariant
            ascending(r@),
            it.seq().no_duplicates(),
            it.seq().unref().to_set() == s@,
            r@.to_set() == it.history().unref().to_set(),
            it.index() == it.seq().len() ==> r@.to_set() == s@,
    {
        let ghost done = it.history();
        assert(!r@.contains(*x)) by {
            if r@.contains(*x) {
                assert(done.unref().to_set().contains(*x));
                let k = choose|k: int| 0 <= k < done.unref().len() && done.unref()[k] == *x;
                assert(done[k] == it.seq()[k]);
            }
        }
        insert_ascending(&mut r, *x);
        assert(done.push(x).unref() =~= done.unref().push(*x));
        proof {
            lemma_push_to_set(done.unref(), *x);
        }
        assert(it.index() + 1 == it.seq().len() ==> done.push(x) =~= it.seq());
    }
    proof {
        lemma_ordered_of(r@);
    }
    r
}

/// The keys of a map keyed by ID, in increasing order.
pub fn sorted_keys<V>(m: &HashMap<u32, V>) -> (r: Vec<u32>)
    ensures
        r@ == ordered(m@.dom()),
        ascending(r@),
        r@.to_set() == m@.dom(),
{
    let mut r: Vec<u32> = Vec::new();
    for x in it: m.keys()
        invariant
            ascending(r@),
            it.seq().no_duplicates(),
            it.seq().unref().to_set() == m@.dom(),
            r@.to_set() == it.history().unref().to_set(),
            it.index() == it.seq().len() ==> r@.to_set() == m@.dom(),
    {
        let ghost done = it.history();
        assert(!r@.contains(*x)) by {
            if r@.contains(*x) {
                assert(done.unref().to_set().contains(*x));
                let k = choose|k: int| 0 <= k < done.unref().len() && done.unref()[k] == *x;
                assert(done[k] == it.seq()[k]);
            }
        }
        insert_ascending(&mut r, *x);
        assert(done.push(x).unref() =~= done.unref().push(*x));
        proof {
            lemma_push_to_set(done.unref(), *x);
        }
        assert(it.index() + 1 == it.seq().len() ==> done.push(x) =~= it.seq());
    }
    proof {
        lemma_ordered_of(r@);
    }
    r
}

/// A set of party IDs, widened to the ID range of the other kinds.
pub open spec fn widen(s: Set<u8>) -> Set<u32> {
    s.map(|p: u8| p as u32)
}

/// The keys of a map keyed by party, in increasing order.
pub fn sorted_party_keys<V>(m: &HashMap<u8, V>) -> (r: Vec<u32>)
    ensures
        r@ == ordered(widen(m@.dom())),
        ascending(r@),
        r@.to_set() == widen(m@.dom()),
        forall|i: int| 0 <= i < r@.len() ==> r@[i] < 256 && m@.contains_key(#[trigger] r@[i] as u8),
{
    let mut r: Vec<u32> = Vec::new();
    for x in it: m.keys()
        invariant
            ascending(r@),
            it.seq().no_duplicates(),
            it.seq().unref().to_set() == m@.dom(),
            r@.to_set() == widen(it.history().unref().to_set()),
            it.index() == it.seq().len() ==> r@.to_set() == widen(m@.dom()),
            forall|i: int| 0 <= i < r@.len() ==> r@[i] < 256 && m@.contains_key(#[trigger] r@[i] as u8),
    {
        let ghost done = it.history();
        let w = *x as u32;
        assert(!r@.contains(w)) by {
            if r@.contains(w) {
                assert(widen(done.unref().to_set()).contains(w));
                let y = choose|y: u8| done.unref().to_set().contains(y) && y as u32 == w;
                let k = choose|k: int| 0 <= k < done.unref().len() && done.unref()[k] == y;
                assert(done[k] == it.seq()[k]);
            }
        }
        assert(m@.contains_key(*x)) by {
            assert(it.seq().unref()[it.index()] == *x);
            assert(it.seq().unref().to_set().contains(*x));
        }
        let ghost before = r@;
        insert_ascending(&mut r, w);
        assert(done.push(x).unref() =~= done.unref().push(*x));
        proof {
            lemma_push_to_set(done.unref(), *x);
            let a = done.unref().to_set();
            assert forall|y: u32| #[trigger] widen(a.insert(*x)).contains(y) implies widen(a).insert(w).contains(y) by {
                let z = choose|z: u8| a.insert(*x).contains(z) && z as u32 == y;
                if z != *x {
                    assert(a.contains(z));
                }
            }
            assert forall|y: u32| #[trigger] widen(a).insert(w).contains(y) implies widen(a.insert(*x)).contains(y) by {
                if y == w {
                    assert(a.insert(*x).contains(*x));
                } else {
                    let z = choose|z: u8| a.contains(z) && z as u32 == y;
                    assert(a.insert(*x).contains(z));
                }
            }
            assert(widen(a.insert(*x)) =~= widen(a).insert(w));
            assert forall|i: int| 0 <= i < r@.len() implies r@[i] < 256 && m@.contains_key(#[trigger] r@[i] as u8) by {
                assert(r@.to_set().contains(r@[i]));
                if r@[i] != w {
                    assert(before.to_set().contains(r@[i]));
                    let k = choose|k: int| 0 <= k < before.len() && before[k] == r@[i];
                }
            }
        }
        assert(it.index() + 1 == it.seq().len() ==> done.push(x) =~= it.seq());
    }
    proof {
        lemma_ordered_of(r@);
    }
    r
}

/// A set of area IDs, widened to the ID range of the other kinds.
pub open spec fn widen16(s: Set<u16>) -> Set<u32> {
    s.map(|p: u16| p as u32)
}

/// The keys of a map keyed by area, in increasing order.
pub fn sorted_area_keys<V>(m: &HashMap<u16, V>) -> (r: Vec<u32>)
    ensures
        r@ == ordered(widen16(m@.dom())),
        ascending(r@),
        r@.to_set() == widen16(m@.dom()),
        forall|i: int| 0 <= i < r@.len() ==> r@[i] < 0x10000 && m@.contains_key(#[trigger] r@[i] as u16),
{
    let mut r: Vec<u32> = Vec::new();
    for x in it: m.keys()
        invariant
            ascending(r@),
            it.seq().no_duplicates(),
            it.seq().unref().to_set() == m@.dom(),
            r@.to_set() == widen16(it.history().unref().to_set()),
            it.index() == it.seq().len() ==> r@.to_set() == widen16(m@.dom()),
            forall|i: int| 0 <= i < r@.len() ==> r@[i] < 0x10000 && m@.contains_key(#[trigger] r@[i] as u16),
    {
        let ghost done = it.history();
        let w = *x as u32;
        assert(!r@.contains(w)) by {
            if r@.contains(w) {
                assert(widen16(done.unref().to_set()).contains(w));
                let y = choose|y: u16| done.unref().to_set().contains(y) && y as u32 == w;
                let k = choose|k: int| 0 <= k < done.unref().len() && done.unref()[k] == y;
                assert(done[k] == it.seq()[k]);
            }
        }
        assert(m@.contains_key(*x)) by {
            assert(it.seq().unref()[it.index()] == *x);
            assert(it.seq().unref().to_set().contains(*x));
        }
        let ghost before = r@;
        insert_ascending(&mut r, w);
        assert(done.push(x).unref() =~= done.unref().push(*x));
        proof {
            lemma_push_to_set(done.unref(), *x);
            let a = done.unref().to_set();
            assert forall|y: u32| #[trigger] widen16(a.insert(*x)).contains(y) implies widen16(a).insert(w).contains(y) by {
                let z = choose|z: u16| a.insert(*x).contains(z) && z as u32 == y;
                if z != *x {
                    assert(a.contains(z));
                }
            }
            assert forall|y: u32| #[trigger] widen16(a).insert(w).contains(y) implies widen16(a.insert(*x)).contains(y) by {
                if y == w {
                    assert(a.insert(*x).contains(*x));
                } else {
                    let z = choose|z: u16| a.contains(z) && z as u32 == y;
                    assert(a.insert(*x).contains(z));
                }
            }
            assert(widen16(a.insert(*x)) =~= widen16(a).insert(w));
            assert forall|i: int| 0 <= i < r@.len() implies r@[i] < 0x10000 && m@.contains_key(#[trigger] r@[i] as u16) by {
                assert(r@.to_set().contains(r@[i]));
                if r@[i] != w {
                    assert(before.to_set().contains(r@[i]));
                    let k = choose|k: int| 0 <= k < before.len() && before[k] == r@[i];
                }
            }
        }
        assert(it.index() + 1 == it.seq().len() ==> done.push(x) =~= it.seq());
    }
    proof {
        lemma_ordered_of(r@);
    }
    r
}

} // verus!
