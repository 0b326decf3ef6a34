//! The staking-economy arithmetic: a piecewise-linear yearly reward curve
//! over the staked ratio, the payout a validator set earns for an era of a
//! given duration, and the genesis layout of the staking harness.
//!
//! All ratios travel as integers in parts per billion; durations are
//! milliseconds; a year is the Julian year of 365.25 days.

use vstd::prelude::*;

verus! {

/// Linear interpolation between `(x0, y0)` and `(x1, y1)` at `x`, rounding
/// toward `y0`.
pub open spec fn interp(x0: u32, y0: u32, x1: u32, y1: u32, x: int) -> int {
    if y1 >= y0 {
        y0 + (y1 - y0) * (x - x0) / (x1 - x0)
    } else {
        y0 - (y0 - y1) * (x - x0) / (x1 - x0)
    }
}

/// The curve value at `x`: interpolated on the first segment whose right end
/// reaches `x`.
pub open spec fn curve_y(ps: Seq<(u32, u32)>, x: int) -> int
    decreases ps.len(),
{
    if ps.len() < 2 {
        0
    } else if x <= ps[1].0 {
        interp(ps[0].0, ps[0].1, ps[1].0, ps[1].1, x)
    } else {
        curve_y(ps.drop_first(), x)
    }
}

/// The ratio `n / d` in parts per billion, rounded down and capped at one.
pub open spec fn ratio_ppb(n: u64, d: u64) -> int {
    if n >= d {
        1_000_000_000
    } else {
        n * 1_000_000_000 / (d as int)
    }
}

/// The curve value at the ratio `n / d`, times `d`: the yearly reward for a
/// stake of `n` out of an issuance of `d`.
pub open spec fn curve_times_denominator(ps: Seq<(u32, u32)>, n: u64, d: u64) -> int {
    curve_y(ps, ratio_ppb(n, d)) * d / 1_000_000_000
}

/// The part of a year that `duration` milliseconds cover, in parts per
/// billion, capped at a whole year.
pub open spec fn portion_of_year_ppb(duration: u64) -> int {
    if duration * 1_000_000_000 / 31_557_600_000 > 1_000_000_000 {
        1_000_000_000
    } else {
        duration * 1_000_000_000 / 31_557_600_000
    }
}

/// The payout for an era: the yearly reward scaled by the era's part of the
/// year.
pub open spec fn era_payout(ps: Seq<(u32, u32)>, staked: u64, issuance: u64, duration: u64) -> int {
    portion_of_year_ppb(duration) * curve_times_denominator(ps, staked, issuance) / 1_000_000_000
}

/// A piecewise-linear curve from the staked ratio to the yearly reward
/// ratio, both in parts per billion.  The points cover the whole ratio range
/// with strictly increasing abscissae.
pub struct RewardCurve {
    pub points: Vec<(u32, u32)>,
}

impl RewardCurve {
    /// At least two points, running from ratio zero to ratio one with
    /// strictly increasing abscissae, every value a true ratio.
    pub open spec fn wf(self) -> bool {
        &&& self.points@.len() >= 2
        &&& self.points@[0].0 == 0
        &&& self.points@.last().0 == 1_000_000_000
        &&& forall|i: int| #![trigger self.points@[i]]
            0 <= i < self.points@.len() - 1 ==> self.points@[i].0 < self.points@[i + 1].0
        &&& forall|i: int| 0 <= i < self.points@.len() ==> self.points@[i].1 <= 1_000_000_000
    }

    /// The curve value at ratio `x`, in parts per billion.
    #[verifier::loop_isolation(false)]
    pub fn eval_ppb(&self, x: u32) -> (r: u32)
        requires
            self.wf(),
            x <= 1_000_000_000,
        ensures
            r == curve_y(self.points@, x as int),
            r <= 1_000_000_000,
    {
        let n = self.points.len();
        let mut i: usize = 1;
        while self.points[i].0 < x
            invariant
                1 <= i < n,
                forall|j: int| 1 <= j < i ==> self.points@[j].0 < x,
            decreases n - i,
        {
            i += 1;
        }
        let x0 = self.points[i - 1].0;
        let y0 = self.points[i - 1].1;
        let x1 = self.points[i].0;
        let y1 = self.points[i].1;
        proof {
            lemma_curve_y_segment(self.points@, x as int, i as int);
        }
        assert(x0 <= x);
        let t = (x - x0) as u64;
        let dx = (x1 - x0) as u64;
        if y1 >= y0 {
            proof {
                lemma_scaled_step_le((y1 - y0) as u64, t, dx);
            }
            let step = (y1 - y0) as u64 * t / dx;
            y0 + step as u32
        } else {
            proof {
                lemma_scaled_step_le((y0 - y1) as u64, t, dx);
            }
            let step = (y0 - y1) as u64 * t / dx;
            y0 - step as u32
        }
    }

    /// The curve value at the ratio `n / d`, times the issuance `d`: the
    /// yearly reward owed on a stake of `n` out of `d`.
    pub fn calculate_for_fraction_times_denominator(&self, n: u64, d: u64) -> (r: u64)
        requires
            self.wf(),
            d > 0,
        ensures
            r == curve_times_denominator(self.points@, n, d),
            r <= d,
    {
        let x: u64 = if n >= d {
            1_000_000_000
        } else {
            proof {
                vstd::arithmetic::mul::lemma_mul_inequality(n as int, d as int, 1_000_000_000);
                vstd::arithmetic::div_mod::lemma_multiply_divide_lt(
                    (n * 1_000_000_000) as int,
                    d as int,
                    1_000_000_000,
                );
                vstd::arithmetic::div_mod::lemma_div_pos_is_pos(
                    (n * 1_000_000_000) as int,
                    d as int,
                );
            }
            ((n as u128 * 1_000_000_000) / (d as u128)) as u64
        };
        let y = self.eval_ppb(x as u32);
        proof {
            vstd::arithmetic::mul::lemma_mul_inequality(y as int, 1_000_000_000, d as int);
            vstd::arithmetic::div_mod::lemma_div_is_ordered(
                (y * d) as int,
                1_000_000_000 * (d as int),
                1_000_000_000,
            );
            vstd::arithmetic::div_mod::lemma_div_multiples_vanish(d as int, 1_000_000_000);
            vstd::arithmetic::div_mod::lemma_div_pos_is_pos((y * d) as int, 1_000_000_000);
        }
        ((y as u128 * d as u128) / 1_000_000_000) as u64
    }
}

/// A linear step scaled by `t / dx` with `t <= dx` never exceeds the step,
/// and two ratio-sized factors never overflow the machine word.
proof fn lemma_scaled_step_le(a: u64, t: u64, dx: u64)
    requires
        0 < dx,
        t <= dx,
        a <= 1_000_000_000,
        t <= 1_000_000_000,
    ensures
        (a as int) * (t as int) <= 1_000_000_000_000_000_000,
        (a as int) * (t as int) / (dx as int) <= a,
        (a as int) * (t as int) / (dx as int) >= 0,
{
    let ai = a as int;
    let ti = t as int;
    let di = dx as int;
    vstd::arithmetic::mul::lemma_mul_inequality(ai, 1_000_000_000, ti);
    vstd::arithmetic::mul::lemma_mul_inequality(ti, 1_000_000_000, 1_000_000_000);
    assert(ai * ti == ti * ai) by (nonlinear_arith);
    assert(1_000_000_000 * ti == ti * 1_000_000_000) by (nonlinear_arith);
    vstd::arithmetic::mul::lemma_mul_inequality(ti, di, ai);
    assert(ti * ai == ai * ti) by (nonlinear_arith);
    assert(di * ai == ai * di) by (nonlinear_arith);
    vstd::arithmetic::div_mod::lemma_div_is_ordered(ai * ti, ai * di, di);
    vstd::arithmetic::div_mod::lemma_div_multiples_vanish(ai, di);
    vstd::arithmetic::div_mod::lemma_div_pos_is_pos(ai * ti, di);
}

/// The curve value at `x` is the interpolation on segment `i` when `x` lies
/// between abscissa `i - 1` exclusive-below and abscissa `i`.
proof fn lemma_curve_y_segment(ps: Seq<(u32, u32)>, x: int, i: int)
    requires
        ps.len() >= 2,
        1 <= i < ps.len(),
        ps[0].0 <= x,
        forall|j: int| 1 <= j < i ==> ps[j].0 < x,
        x <= ps[i].0,
    ensures
        curve_y(ps, x) == interp(ps[i - 1].0, ps[i - 1].1, ps[i].0, ps[i].1, x),
    decreases i,
{
    if i == 1 {
    } else {
        assert(forall|j: int| 0 <= j < i - 1 ==> ps.drop_first()[j] == ps[j + 1]);
        lemma_curve_y_segment(ps.drop_first(), x, i - 1);
    }
}

/// The payout earned over `duration` milliseconds of an era: the yearly
/// reward for the staked amount, scaled down to the era's part of the year.
/// The staked amount weighs the slot stake double, as the election does.
pub fn current_total_payout_for_duration(
    curve: &RewardCurve,
    slot_stake: u64,
    total_issuance: u64,
    duration: u64,
) -> (r: u64)
    requires
        curve.wf(),
        total_issuance > 0,
        slot_stake <= u64::MAX / 2,
    ensures
        r == era_payout(curve.points@, (2 * slot_stake) as u64, total_issuance, duration),
{
    let staked = 2 * slot_stake;
    let reward = curve.calculate_for_fraction_times_denominator(staked, total_issuance);
    proof {
        vstd::arithmetic::mul::lemma_mul_inequality(
            duration as int,
            u64::MAX as int,
            1_000_000_000,
        );
        vstd::arithmetic::div_mod::lemma_div_pos_is_pos(
            (duration * 1_000_000_000) as int,
            31_557_600_000,
        );
    }
    let p = (duration as u128 * 1_000_000_000) / 31_557_600_000;
    let portion: u64 = if p > 1_000_000_000 {
        1_000_000_000
    } else {
        p as u64
    };
    proof {
        vstd::arithmetic::mul::lemma_mul_inequality(portion as int, 1_000_000_000, reward as int);
        vstd::arithmetic::div_mod::lemma_div_is_ordered(
            (portion * reward) as int,
            1_000_000_000 * (reward as int),
            1_000_000_000,
        );
        vstd::arithmetic::div_mod::lemma_div_multiples_vanish(reward as int, 1_000_000_000);
        vstd::arithmetic::div_mod::lemma_div_pos_is_pos((portion * reward) as int, 1_000_000_000);
    }
    ((portion as u128 * reward as u128) / 1_000_000_000) as u64
}

/// Genesis configuration of the staking harness: how many validators the
/// chain starts with, the floor the election keeps, and an optional override
/// of how many validator key pairs the genesis lays out.
pub struct ExtBuilder {
    pub validator_count: u32,
    pub minimum_validator_count: u32,
    pub num_validators: Option<u32>,
}

impl core::default::Default for ExtBuilder {
    /// Two validators wanted, no minimum, no override.
    fn default() -> (r: Self)
        ensures
            r.validator_count == 2,
            r.minimum_validator_count == 0,
            r.num_validators is None,
    {
        ExtBuilder { validator_count: 2, minimum_validator_count: 0, num_validators: None }
    }
}

impl ExtBuilder {
    /// How many validator key pairs the genesis lays out: the override where
    /// one was set, else the wanted validator count.
    pub open spec fn spec_num_validators(self) -> u32 {
        match self.num_validators {
            Some(n) => n,
            None => self.validator_count,
        }
    }

    /// The stash account ids the genesis endows its validators with:
    /// 11, 21, 31, and so on, one per validator.
    #[verifier::loop_isolation(false)]
    pub fn validator_ids(&self) -> (r: Vec<u64>)
        ensures
            r@.len() == self.spec_num_validators(),
            forall|i: int| 0 <= i < r@.len() ==> r@[i] == (i + 1) * 10 + 1,
    {
        let n = match self.num_validators {
            Some(v) => v,
            None => self.validator_count,
        };
        let mut out: Vec<u64> = Vec::new();
        let mut x: u32 = 0;
        while x < n
            invariant
                0 <= x <= n,
                out@.len() == x,
                forall|i: int| 0 <= i < x ==> out@[i] == (i + 1) * 10 + 1,
            decreases n - x,
        {
            out.push((x as u64 + 1) * 10 + 1);
            x += 1;
        }
        out
    }
}

} // verus!
