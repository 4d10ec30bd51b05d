//! Recovery of a bounded discrete logarithm by baby steps and giant steps.
//!
//! A [`BabyStepsTable`] holds the baby steps `i * G` for `i` from 0 to
//! half the baby step size, each under the coordinate that `i * G` shares
//! with its inverse, so that one entry serves `i * G` and `-i * G`. The
//! search subtracts the baby step size from the target until the table
//! holds what is left.

use crate::group::GroupElement;
use crate::scalar::{group_order, Scalar};
use crate::table::{key_view, CoordinateMap};
use vstd::arithmetic::div_mod::{
    lemma_add_mod_noop, lemma_fundamental_div_mod, lemma_mod_multiples_vanish, lemma_small_mod,
};
use vstd::prelude::*;

verus! {

/// Baby steps are twice as many as the square root of the bound asks for:
/// a table is made once and serves many searches.
pub const DEFAULT_BALANCE: u64 = 2;

/// The most buckets that a table spreads its entries over.
pub const MAX_BUCKETS: usize = 0x10_0000;

/// The search found no discrete logarithm within its bound.
#[derive(Clone, Copy, Debug, PartialEq, Eq)]
pub struct MaxLogExceeded;

/// `s` is the least natural number whose square is at least `n`.
pub open spec fn is_ceil_sqrt(n: int, s: int) -> bool {
    &&& 0 <= s
    &&& s * s >= n
    &&& s == 0 || (s - 1) * (s - 1) < n
}

/// The square root of `n`, rounded up.
pub open spec fn ceil_sqrt(n: int) -> int {
    choose|s: int| is_ceil_sqrt(n, s)
}

/// There is one rounded-up square root.
pub proof fn lemma_ceil_sqrt_unique(n: int, s: int, t: int)
    requires
        is_ceil_sqrt(n, s),
        is_ceil_sqrt(n, t),
    ensures
        s == t,
{
    if s < t {
        assert(s * s <= (t - 1) * (t - 1)) by (nonlinear_arith)
            requires
                0 <= s <= t - 1,
        ;
    }
    if t < s {
        assert(t * t <= (s - 1) * (s - 1)) by (nonlinear_arith)
            requires
                0 <= t <= s - 1,
        ;
    }
}

/// Every natural number has a rounded-up square root.
pub proof fn lemma_ceil_sqrt_exists(n: int)
    requires
        0 <= n,
    ensures
        is_ceil_sqrt(n, ceil_sqrt(n)),
        n >= 1 ==> ceil_sqrt(n) >= 1,
    decreases n,
{
    if n == 0 {
        assert(is_ceil_sqrt(0, 0));
    } else {
        lemma_ceil_sqrt_exists(n - 1);
        let t = ceil_sqrt(n - 1);
        if t * t >= n {
            assert(is_ceil_sqrt(n, t));
        } else {
            assert((t + 1) * (t + 1) >= n) by (nonlinear_arith)
                requires
                    t * t >= n - 1,
                    t >= 0,
            ;
            assert(is_ceil_sqrt(n, t + 1));
        }
        assert(ceil_sqrt(n) != 0);
    }
}

/// The square root of `n`, rounded up.
pub fn integer_ceil_sqrt(n: u64) -> (s: u64)
    ensures
        s == ceil_sqrt(n as int),
        is_ceil_sqrt(n as int, s as int),
        s <= 0x1_0000_0000,
{
    let mut lo: u64 = 0;
    let mut hi: u64 = 0x1_0000_0000;
    assert(0x1_0000_0000 * 0x1_0000_0000 >= n) by (nonlinear_arith)
        requires
            n <= u64::MAX,
    ;
    while lo < hi
        invariant
            lo <= hi <= 0x1_0000_0000,
            hi * hi >= n,
            lo == 0 || (lo - 1) * (lo - 1) < n,
        decreases hi - lo,
    {
        let mid: u64 = lo + (hi - lo) / 2;
        assert(mid * mid <= 0x1_0000_0000 * 0x1_0000_0000) by (nonlinear_arith)
            requires
                0 <= mid <= 0x1_0000_0000,
        ;
        let square: u128 = (mid as u128) * (mid as u128);
        if square >= n as u128 {
            hi = mid;
        } else {
            lo = mid + 1;
        }
    }
    proof {
        let c = ceil_sqrt(n as int);
        lemma_ceil_sqrt_unique(n as int, lo as int, c);
    }
    lo
}

/// The lesser of `k` and `group_order() - k`: how far `k * G` is from the
/// identity, by steps of `G` in either direction.
pub open spec fn symmetric(k: int) -> int {
    if k <= group_order() - k {
        k
    } else {
        group_order() - k
    }
}

/// The largest discrete logarithm that a search with the baby step size
/// `step` and the bound `max_log` finds: it makes `max_log / step + 1`
/// giant steps, and the table reaches half a baby step further.
pub open spec fn reach(step: int, max_log: int) -> int {
    (max_log / step + 1) * step + step / 2
}

/// The result of the search for the discrete logarithm of `d * G`, with
/// `d` in `[0, group_order())`: `d` itself, where it fits a `u64` and lies
/// within reach.
pub open spec fn discrete_log(step: int, max_log: int, d: int) -> Result<u64, MaxLogExceeded> {
    if d == 0 || (step > 0 && d <= reach(step, max_log) && d <= u64::MAX) {
        Ok(d as u64)
    } else {
        Err(MaxLogExceeded)
    }
}

/// The search reaches past its bound, by at most a giant step and a half.
pub proof fn lemma_reach(step: int, max_log: int)
    requires
        step > 0,
        max_log >= 0,
    ensures
        max_log < reach(step, max_log) <= max_log + step + step / 2,
{
    lemma_fundamental_div_mod(max_log, step);
    let q = max_log / step;
    assert((q + 1) * step == step * q + step) by (nonlinear_arith);
}

/// With a baby step size of at least one, the search finds every discrete
/// logarithm from 0 to its bound.
pub proof fn lemma_finds_within_bound(step: int, max_log: int, x: int)
    requires
        step > 0,
        0 <= x <= max_log <= u64::MAX,
    ensures
        discrete_log(step, max_log, x) == Ok::<u64, MaxLogExceeded>(x as u64),
{
    lemma_reach(step, max_log);
}

/// The table that is generated for `max_value` with a balance of at least
/// one serves to find every discrete logarithm from 0 to `max_value`, where
/// the bound of the search is no less than `max_value`.
pub proof fn lemma_finds_up_to_max_value(max_value: int, balance: int, max_log: int, x: int)
    requires
        balance >= 1,
        0 <= x <= max_value <= max_log <= u64::MAX,
    ensures
        discrete_log(ceil_sqrt(max_value) * balance, max_log, x) == Ok::<u64, MaxLogExceeded>(
            x as u64,
        ),
{
    if x > 0 {
        lemma_ceil_sqrt_exists(max_value);
        let s = ceil_sqrt(max_value);
        assert(s * balance >= 1) by (nonlinear_arith)
            requires
                s >= 1,
                balance >= 1,
        ;
        lemma_finds_within_bound(s * balance, max_log, x);
    }
}

/// The identity has the discrete logarithm 0, which every search finds.
pub proof fn lemma_finds_zero(step: int, max_log: int)
    ensures
        discrete_log(step, max_log, 0) == Ok::<u64, MaxLogExceeded>(0),
{
}

/// Past the bound, a giant step and a half, the search fails; and it never
/// returns another number than the discrete logarithm.
pub proof fn lemma_bound_enforced(step: int, max_log: int, d: int)
    requires
        step >= 0,
        max_log >= 0,
        d > 0,
    ensures
        d > max_log + step + step / 2 ==> discrete_log(step, max_log, d) is Err,
        discrete_log(step, max_log, d) is Ok ==> discrete_log(step, max_log, d)->Ok_0 == d,
{
    if step > 0 {
        lemma_reach(step, max_log);
    }
}

/// Within reach, some giant step brings the target to a baby step.
proof fn lemma_hit_exists(step: int, max_log: int, d: int) -> (a: int)
    requires
        step > 0,
        max_log >= 0,
        0 <= d <= reach(step, max_log),
    ensures
        0 <= a <= max_log / step + 1,
        -(step / 2) <= d - a * step <= step / 2,
{
    let half = step / 2;
    let top = max_log / step + 1;
    let a0 = (d + half) / step;
    lemma_fundamental_div_mod(d + half, step);
    lemma_fundamental_div_mod(max_log, step);
    assert(step * a0 == a0 * step) by (nonlinear_arith);
    assert(0 <= a0) by (nonlinear_arith)
        requires
            a0 == (d + half) / step,
            d + half >= 0,
            step > 0,
    ;
    if a0 <= top {
        a0
    } else {
        assert(a0 * step >= (top + 1) * step) by (nonlinear_arith)
            requires
                a0 >= top + 1,
                step > 0,
        ;
        assert((top + 1) * step == top * step + step) by (nonlinear_arith);
        top
    }
}

/// What is left of the target after `a` giant steps lies, as a multiple of
/// the generator, at the distance `|d - a * step|` from the identity.
proof fn lemma_residue(step: int, d: int, a: int)
    requires
        0 <= d < group_order(),
        0 <= step <= u64::MAX,
        0 <= a,
        a * step <= 2 * u64::MAX + 1,
    ensures
        d - a * step >= 0 ==> (d - a * step) % group_order() == d - a * step,
        d - a * step < 0 ==> (d - a * step) % group_order() == group_order() + d - a * step,
{
    let n = group_order();
    let k = d - a * step;
    if k >= 0 {
        lemma_small_mod(k as nat, n as nat);
    } else {
        lemma_small_mod((n + k) as nat, n as nat);
        lemma_mod_multiples_vanish(1, k, n);
    }
}

/// Precomputed baby steps for the search of discrete logarithms.
pub struct BabyStepsTable {
    table: CoordinateMap,
    baby_step_size: u64,
    giant_step: GroupElement,
}

impl BabyStepsTable {
    /// What the table holds at a coordinate.
    pub closed spec fn lookup(&self, c: Option<Seq<u8>>) -> Option<u64> {
        if self.table@.contains_key(c) {
            Some(self.table@[c])
        } else {
            None
        }
    }

    /// The baby step size of the table.
    pub closed spec fn step(&self) -> u64 {
        self.baby_step_size
    }

    /// The giant step of the table, as a multiple of the generator.
    pub closed spec fn giant(&self) -> int {
        self.giant_step@
    }

    /// The parts of the table are well formed.
    pub closed spec fn parts_wf(&self) -> bool {
        self.table.wf() && self.giant_step.wf()
    }

    /// The table holds `i` at the coordinate that `i * G` and `-i * G`
    /// share, for every `i` from 0 to half the baby step size, and nothing
    /// else; its giant step is the baby step size times `-G`.
    #[verifier::type_invariant]
    pub open spec fn wf(&self) -> bool {
        &&& self.parts_wf()
        &&& self.giant() == (-(self.step() as int)) % group_order()
        &&& forall|q: GroupElement|
            q.wf() ==> #[trigger] self.lookup(q.coordinate()) == (if symmetric(q@) <= self.step()
                / 2 {
                Some(symmetric(q@) as u64)
            } else {
                None::<u64>
            })
    }

    /// The baby step size of the table.
    pub fn baby_step_size(&self) -> (r: u64)
        ensures
            r == self.step(),
    {
        self.baby_step_size
    }

    /// Generates the table for values up to `max_value`, with twice as many
    /// baby steps as the square root of `max_value` asks for.
    pub fn generate(max_value: u64) -> (t: BabyStepsTable)
        ensures
            t.wf(),
            t.step() == ceil_sqrt(max_value as int) * DEFAULT_BALANCE,
    {
        let s = integer_ceil_sqrt(max_value);
        BabyStepsTable::generate_with_balance(max_value, DEFAULT_BALANCE)
    }

    /// Generates the table for values up to `max_value` with the given
    /// balance: the baby step size is the square root of `max_value`,
    /// rounded up, times `balance`. A balance above 1 makes for more baby
    /// steps and fewer giant steps in each search.
    pub fn generate_with_balance(max_value: u64, balance: u64) -> (t: BabyStepsTable)
        requires
            ceil_sqrt(max_value as int) * balance <= u64::MAX,
        ensures
            t.wf(),
            t.step() == ceil_sqrt(max_value as int) * balance,
    {
        let sqrt_step_size = integer_ceil_sqrt(max_value);
        let baby_step_size: u64 = sqrt_step_size * balance;
        let half: u64 = baby_step_size / 2;
        let width: usize = if half >= MAX_BUCKETS as u64 {
            MAX_BUCKETS
        } else {
            half as usize + 1
        };
        let mut table = CoordinateMap::new(width);
        let g = GroupElement::generator();
        let mut e = GroupElement::zero();
        let mut i: u64 = 0;
        proof {
            assert forall|q: GroupElement| q.wf() implies symmetric(q@) >= 0 by {
                q.lemma_view();
            }
        }
        // With a curve a point and its inverse share a coordinate
        while i <= half
            invariant
                half <= u64::MAX / 2,
                i <= half + 1,
                table.wf(),
                g.wf(),
                g@ == 1,
                e.wf(),
                e@ == i,
                forall|q: GroupElement|
                    q.wf() ==> (#[trigger] table@.contains_key(q.coordinate())) == (symmetric(q@)
                        < i),
                forall|q: GroupElement|
                    q.wf() && symmetric(q@) < i ==> (#[trigger] table@[q.coordinate()])
                        == symmetric(q@),
            decreases half + 1 - i,
        {
            let c = e.compress();
            table.insert(c, i);
            proof {
                assert forall|q: GroupElement| q.wf() implies (#[trigger] table@.contains_key(
                    q.coordinate(),
                )) == (symmetric(q@) < i + 1) by {
                    q.lemma_view();
                }
                assert forall|q: GroupElement| q.wf() && symmetric(q@) < i + 1 implies (
                #[trigger] table@[q.coordinate()]) == symmetric(q@) by {
                    q.lemma_view();
                }
            }
            e = e.add(&g);
            proof {
                lemma_small_mod((i + 1) as nat, group_order() as nat);
            }
            i += 1;
        }
        let giant_step = GroupElement::mul_base(&Scalar::from_u64(baby_step_size).negate());
        BabyStepsTable { table, baby_step_size, giant_step }
    }

    /// Solves the discrete logarithm of `p` to the base `G`: the `x` with
    /// `p = x * G`, where it lies within `max_log`, or within the giant
    /// step and a half that the search makes beyond it.
    pub fn solve(&self, p: &GroupElement, max_log: u64) -> (r: Result<u64, MaxLogExceeded>)
        ensures
            r == discrete_log(self.step() as int, max_log as int, p@),
    {
        proof {
            use_type_invariant(self);
            use_type_invariant(p);
            p.lemma_view();
        }
        let step: u64 = self.baby_step_size;
        let ghost d = p@;
        let ghost n = group_order();
        let ghost top: int = if step > 0 {
            max_log as int / step as int + 1
        } else {
            0
        };
        let ghost mut a: int = 0;
        let mut current = *p;
        let mut offset: u128 = 0;
        proof {
            lemma_small_mod(d as nat, n as nat);
            if step > 0 {
                assert(max_log as int / step as int >= 0) by (nonlinear_arith)
                    requires
                        max_log >= 0,
                        step > 0,
                ;
            }
        }
        loop
            invariant
                self.wf(),
                step == self.baby_step_size,
                n == group_order(),
                0 <= d < n,
                d == p@,
                top == (if step > 0 {
                    max_log as int / step as int + 1
                } else {
                    0
                }),
                0 <= a <= top,
                offset == a * step,
                offset <= max_log + step,
                current.wf(),
                current@ == (d - offset) % n,
                forall|b: int| 0 <= b < a ==> !(-(step / 2) <= #[trigger] (d - b * step) <= step / 2),
            decreases top - a,
        {
            let key = current.compress();
            proof {
                use_type_invariant(&current);
                current.lemma_view();
                assert(self.lookup(current.coordinate()) == (if symmetric(current@) <= step / 2 {
                    Some(symmetric(current@) as u64)
                } else {
                    None::<u64>
                }));
                lemma_residue(step as int, d, a);
            }
            match self.table.get(&key) {
                Some(x) => {
                    let baby = GroupElement::mul_base(&Scalar::from_u64(x));
                    if baby.equals(&current) {
                        // the target is `offset + x` times the generator
                        let sum: u128 = offset + x as u128;
                        proof {
                            assert(d == offset + x);
                            if step > 0 {
                                assert(a * step <= top * step) by (nonlinear_arith)
                                    requires
                                        a <= top,
                                        step > 0,
                                ;
                            }
                        }
                        if sum <= u64::MAX as u128 {
                            return Ok(sum as u64);
                        } else {
                            return Err(MaxLogExceeded);
                        }
                    } else {
                        if offset >= x as u128 {
                            // the baby step is the inverse of what is left
                            let difference: u128 = offset - x as u128;
                            proof {
                                assert(d == offset - x);
                                assert(a * step <= top * step) by (nonlinear_arith)
                                    requires
                                        a <= top,
                                        step >= 0,
                                ;
                            }
                            if difference <= u64::MAX as u128 {
                                return Ok(difference as u64);
                            } else {
                                return Err(MaxLogExceeded);
                            }
                        } else {
                            // the target is a negative multiple of the generator
                            proof {
                                assert(d == n + offset - x);
                            }
                            return Err(MaxLogExceeded);
                        }
                    }
                },
                None => {},
            }
            proof {
                // the table does not hold what is left after this giant step
                assert(!(-(step / 2) <= d - a * step <= step / 2));
            }
            if offset > max_log as u128 || step == 0 {
                proof {
                    if step > 0 && d <= reach(step as int, max_log as int) {
                        let b = lemma_hit_exists(step as int, max_log as int, d);
                        lemma_fundamental_div_mod(max_log as int, step as int);
                        let q = max_log as int / step as int;
                        let r = max_log as int % step as int;
                        assert(a >= top) by (nonlinear_arith)
                            requires
                                a * step > max_log,
                                max_log == step * q + r,
                                0 <= r,
                                r < step,
                                top == q + 1,
                                step > 0,
                                a >= 0,
                        ;
                        // a giant step up to this one would have hit the table
                        assert(-(step / 2) <= d - b * step <= step / 2);
                        assert(false);
                    }
                }
                return Err(MaxLogExceeded);
            }
            proof {
                lemma_fundamental_div_mod(max_log as int, step as int);
                let q = max_log as int / step as int;
                let r = max_log as int % step as int;
                assert(a + 1 <= top) by (nonlinear_arith)
                    requires
                        a * step <= max_log,
                        max_log == step * q + r,
                        0 <= r,
                        r < step,
                        top == q + 1,
                        step > 0,
                        a >= 0,
                ;
                assert((a + 1) * step == a * step + step) by (nonlinear_arith);
                lemma_add_mod_noop(d - offset, -(step as int), n);
                lemma_small_mod((d - offset) as nat % (n as nat), n as nat);
            }
            current = current.add(&self.giant_step);
            offset = offset + step as u128;
            proof {
                a = a + 1;
            }
        }
    }
}

/// Solves the discrete logarithm of each of `points`: the result at a place
/// is that of the point at the same place.
pub fn solve_discrete_logs(table: &BabyStepsTable, points: &[GroupElement], max_log: u64) -> (r:
    Vec<Result<u64, MaxLogExceeded>>)
    ensures
        r@.len() == points@.len(),
        forall|i: int|
            0 <= i < points@.len() ==> #[trigger] r@[i] == discrete_log(
                table.step() as int,
                max_log as int,
                points@[i]@,
            ),
{
    let mut results: Vec<Result<u64, MaxLogExceeded>> = Vec::new();
    let mut i: usize = 0;
    while i < points.len()
        invariant
            i <= points@.len(),
            results@.len() == i,
            forall|j: int|
                0 <= j < i ==> #[trigger] results@[j] == discrete_log(
                    table.step() as int,
                    max_log as int,
                    points@[j]@,
                ),
        decreases points@.len() - i,
    {
        let p = points[i];
        results.push(table.solve(&p, max_log));
        i += 1;
    }
    results
}

/// Solves the discrete logarithm of each of `points`, in their order. Fails
/// where one of them has none within the bound.
pub fn baby_step_giant_step(points: Vec<GroupElement>, max_log: u64, table: &BabyStepsTable) -> (r:
    Result<Vec<u64>, MaxLogExceeded>)
    ensures
        r is Ok <==> forall|i: int|
            0 <= i < points@.len() ==> (#[trigger] discrete_log(
                table.step() as int,
                max_log as int,
                points@[i]@,
            )) is Ok,
        r is Ok ==> r->Ok_0@.len() == points@.len() && forall|i: int|
            0 <= i < points@.len() ==> discrete_log(
                table.step() as int,
                max_log as int,
                (#[trigger] points@[i])@,
            ) == Ok::<u64, MaxLogExceeded>(r->Ok_0@[i]),
{
    let mut logs: Vec<u64> = Vec::new();
    let mut i: usize = 0;
    while i < points.len()
        invariant
            i <= points@.len(),
            logs@.len() == i,
            forall|j: int|
                0 <= j < i ==> discrete_log(
                    table.step() as int,
                    max_log as int,
                    (#[trigger] points@[j])@,
                ) == Ok::<u64, MaxLogExceeded>(logs@[j]),
        decreases points@.len() - i,
    {
        let p = points[i];
        match table.solve(&p, max_log) {
            Ok(x) => {
                logs.push(x);
            },
            Err(e) => {
                return Err(e);
            },
        }
        i += 1;
    }
    Ok(logs)
}

} // verus!
