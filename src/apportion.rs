//! Divisor apportionment by the Sainte-Laguë (Webster) method, and the
//! top-up seat entitlement of areas derived from it.
use crate::model::SeatCount;
use vstd::prelude::*;

verus! {

/// Bucket `i` has a strictly higher quotient `w / (2 s + 1)` than bucket
/// `j` (compared by cross-multiplication).
pub open spec fn quotient_gt(w: Seq<u32>, s: Seq<nat>, i: int, j: int) -> bool {
    w[i] * (2 * s[j] + 1) > w[j] * (2 * s[i] + 1)
}

/// The bucket among the first `n` with the highest quotient, the lowest
/// index among equals.
pub open spec fn best(w: Seq<u32>, s: Seq<nat>, n: nat) -> int
    decreases n,
{
    if n <= 1 {
        0
    } else {
        let b = best(w, s, (n - 1) as nat);
        if quotient_gt(w, s, n - 1, b) {
            n - 1
        } else {
            b
        }
    }
}

/// The seats of each bucket after `t` seats were awarded one at a time,
/// each to the bucket with the highest quotient.
pub open spec fn sainte_lague(w: Seq<u32>, t: nat) -> Seq<nat>
    decreases t,
{
    if t == 0 {
        Seq::new(w.len(), |i: int| 0nat)
    } else {
        let s = sainte_lague(w, (t - 1) as nat);
        let b = best(w, s, w.len());
        s.update(b, s[b] + 1)
    }
}

/// Sum of a sequence of seat counts.
pub open spec fn total(s: Seq<nat>) -> nat
    decreases s.len(),
{
    if s.len() == 0 {
        0
    } else {
        total(s.drop_last()) + s.last()
    }
}

proof fn lemma_total_update(s: Seq<nat>, i: int)
    requires
        0 <= i < s.len(),
    ensures
        total(s.update(i, s[i] + 1)) == total(s) + 1,
    decreases s.len(),
{
    let u = s.update(i, s[i] + 1);
    if i == s.len() - 1 {
        assert(u.drop_last() =~= s.drop_last());
    } else {
        lemma_total_update(s.drop_last(), i);
        assert(u.drop_last() =~= s.drop_last().update(i, s[i] + 1));
    }
}

proof fn lemma_total_zero(n: nat)
    ensures
        total(Seq::new(n, |i: int| 0nat)) == 0,
    decreases n,
{
    if n > 0 {
        lemma_total_zero((n - 1) as nat);
        assert(Seq::new(n, |i: int| 0nat).drop_last() =~= Seq::new((n - 1) as nat, |i: int| 0nat));
    }
}

proof fn lemma_quotient_trans(a: int, x: int, b: int, y: int, c: int, z: int)
    requires
        x > 0,
        y > 0,
        z > 0,
        a >= 0,
        b >= 0,
        c >= 0,
        a * y <= b * x,
        b * z <= c * y,
    ensures
        a * z <= c * x,
{
    assert(a * y * z <= b * x * z) by (nonlinear_arith)
        requires
            a * y <= b * x,
            z > 0,
    ;
    assert(b * z * x <= c * y * x) by (nonlinear_arith)
        requires
            b * z <= c * y,
            x > 0,
    ;
    assert(a * z * y <= c * x * y) by (nonlinear_arith)
        requires
            a * y * z <= b * x * z,
            b * z * x <= c * y * x,
    ;
    assert(a * z <= c * x) by (nonlinear_arith)
        requires
            a * z * y <= c * x * y,
            y > 0,
    ;
}

/// No bucket among the first `n` has a higher quotient than `best`.
proof fn lemma_best_is_max(w: Seq<u32>, s: Seq<nat>, n: nat)
    requires
        1 <= n <= w.len(),
        s.len() == w.len(),
    ensures
        0 <= best(w, s, n) < n,
        forall|k: int| 0 <= k < n ==> !#[trigger] quotient_gt(w, s, k, best(w, s, n)),
    decreases n,
{
    if n > 1 {
        lemma_best_is_max(w, s, (n - 1) as nat);
        let b = best(w, s, (n - 1) as nat);
        if quotient_gt(w, s, n - 1, b) {
            assert forall|k: int| 0 <= k < n implies !#[trigger] quotient_gt(w, s, k, n - 1) by {
                if k < n - 1 {
                    assert(!quotient_gt(w, s, k, b));
                    lemma_quotient_trans(
                        w[k] as int, (2 * s[k] + 1) as int, w[b] as int, (2 * s[b] + 1) as int, w[n - 1] as int, (2 * s[n - 1] + 1) as int,
                    );
                }
            }
        }
    }
}

/// Facts about the allocation after `t` seats.
proof fn lemma_sainte_lague(w: Seq<u32>, t: nat)
    requires
        w.len() > 0 || t == 0,
    ensures
        sainte_lague(w, t).len() == w.len(),
        total(sainte_lague(w, t)) == t,
        forall|i: int| 0 <= i < w.len() ==> sainte_lague(w, t)[i] <= t,
        forall|i: int, j: int|
            0 <= i < w.len() && 0 <= j < w.len() && w[i] > w[j] ==> sainte_lague(w, t)[i] >= sainte_lague(w, t)[j],
    decreases t,
{
    if t == 0 {
        lemma_total_zero(w.len());
    } else {
        lemma_sainte_lague(w, (t - 1) as nat);
        let s = sainte_lague(w, (t - 1) as nat);
        let b = best(w, s, w.len());
        lemma_best_is_max(w, s, w.len());
        lemma_total_update(s, b);
        let u = sainte_lague(w, t);
        assert forall|i: int, j: int| 0 <= i < w.len() && 0 <= j < w.len() && w[i] > w[j] implies u[i] >= u[j] by {
            if j == b && i != b && s[i] == s[j] {
                assert(!quotient_gt(w, s, i, b));
                assert(w[i] * (2 * s[j] + 1) > w[j] * (2 * s[i] + 1)) by (nonlinear_arith)
                    requires
                        w[i] > w[j],
                        s[i] == s[j],
                ;
            }
        }
    }
}

/// Sainte-Laguë allocation of `seats` among buckets of the given weights:
/// each seat in turn goes to the bucket with the highest quotient
/// `weight / (2 * seats so far + 1)`, the lowest index among equals.
pub fn allocate_sainte_lague(weights: &Vec<u32>, seats: SeatCount) -> (r: Vec<SeatCount>)
    requires
        weights@.len() > 0 || seats == 0,
    ensures
        r@.len() == weights@.len(),
        forall|i: int| 0 <= i < r@.len() ==> r@[i] == sainte_lague(weights@, seats as nat)[i],
        total(r@.map_values(|x: SeatCount| x as nat)) == seats,
        forall|i: int, j: int|
            0 <= i < r@.len() && 0 <= j < r@.len() && weights@[i] > weights@[j] ==> r@[i] >= r@[j],
{
    let ghost w = weights@;
    let n = weights.len();
    let mut alloc: Vec<SeatCount> = Vec::new();
    while alloc.len() < n
        invariant
            alloc@.len() <= n,
            n == w.len(),
            forall|i: int| 0 <= i < alloc@.len() ==> alloc@[i] == 0,
        decreases n - alloc@.len(),
    {
        alloc.push(0);
    }
    let mut k: SeatCount = 0;
    while k < seats
        invariant
            n == w.len(),
            w == weights@,
            w.len() > 0 || seats == 0,
            k <= seats,
            alloc@.len() == n,
            forall|i: int| 0 <= i < n ==> alloc@[i] == sainte_lague(w, k as nat)[i],
        decreases seats - k,
    {
        proof {
            lemma_sainte_lague(w, k as nat);
        }
        let ghost s = sainte_lague(w, k as nat);
        let mut b: usize = 0;
        let mut j: usize = 1;
        while j < n
            invariant
                1 <= j <= n,
                n == w.len(),
                w == weights@,
                alloc@.len() == n,
                s.len() == n,
                forall|i: int| 0 <= i < n ==> alloc@[i] == s[i] && s[i] <= k,
                b == best(w, s, j as nat),
                0 <= b < j,
            decreases n - j,
        {
            let wj = weights[j] as u128;
            let wb = weights[b] as u128;
            let sj = alloc[j] as u128;
            let sb = alloc[b] as u128;
            assert(wj * (2 * sb + 1) <= 0xffff_ffff * 0x1_ffff_ffff) by (nonlinear_arith)
                requires
                    wj <= 0xffff_ffff,
                    sb <= 0xffff_ffff,
            ;
            assert(wb * (2 * sj + 1) <= 0xffff_ffff * 0x1_ffff_ffff) by (nonlinear_arith)
                requires
                    wb <= 0xffff_ffff,
                    sj <= 0xffff_ffff,
            ;
            if wj * (2 * sb + 1) > wb * (2 * sj + 1) {
                b = j;
            }
            j = j + 1;
        }
        proof {
            lemma_best_is_max(w, s, n as nat);
        }
        alloc.set(b, alloc[b] + 1);
        k = k + 1;
        assert forall|i: int| 0 <= i < n implies alloc@[i] == sainte_lague(w, k as nat)[i] by {}
    }
    proof {
        lemma_sainte_lague(w, seats as nat);
        assert(alloc@.map_values(|x: SeatCount| x as nat) =~= sainte_lague(w, seats as nat));
    }
    alloc
}

/// `a - b`, or zero where `b` exceeds `a`.
pub open spec fn clamped_diff(a: nat, b: nat) -> nat {
    if a >= b {
        (a - b) as nat
    } else {
        0
    }
}

/// The top-up seats of an area: its proportional entitlement less the
/// seats its districts already fill, never below zero.
pub fn top_up_seats(entitled: SeatCount, local: SeatCount) -> (r: SeatCount)
    ensures
        r == clamped_diff(entitled as nat, local as nat),
{
    if entitled >= local {
        entitled - local
    } else {
        0
    }
}

/// The top-up seat entitlement of each area: the Sainte-Laguë share of
/// `seats` by population, less the area's local district seats.
pub fn area_top_up(populations: &Vec<u32>, local: &Vec<SeatCount>, seats: SeatCount) -> (r: Vec<SeatCount>)
    requires
        populations@.len() > 0 || seats == 0,
        local@.len() == populations@.len(),
    ensures
        r@.len() == populations@.len(),
        forall|i: int| 0 <= i < r@.len() ==> #[trigger] r@[i] == clamped_diff(sainte_lague(populations@, seats as nat)[i], local@[i] as nat),
{
    let entitled = allocate_sainte_lague(populations, seats);
    let mut r: Vec<SeatCount> = Vec::new();
    let mut i: usize = 0;
    while i < entitled.len()
        invariant
            i <= entitled@.len(),
            entitled@.len() == populations@.len(),
            local@.len() == populations@.len(),
            r@.len() == i,
            forall|k: int| 0 <= k < entitled@.len() ==> entitled@[k] == sainte_lague(populations@, seats as nat)[k],
            forall|k: int| 0 <= k < i ==> #[trigger] r@[k] == clamped_diff(sainte_lague(populations@, seats as nat)[k], local@[k] as nat),
        decreases entitled@.len() - i,
    {
        r.push(top_up_seats(entitled[i], local[i]));
        i = i + 1;
    }
    r
}

} // verus!
