//! Validated fan-curve configuration and the duty-cycle interpolator.

use vstd::prelude::*;
use vstd::arithmetic::div_mod::{
    lemma_div_is_ordered,
    lemma_div_multiples_vanish,
    lemma_div_pos_is_pos,
};
use vstd::arithmetic::mul::{lemma_mul_inequality, lemma_mul_nonnegative};

verus! {

/// Error raised when a raw configuration cannot form a valid fan curve.
#[derive(Debug, Clone, Copy, PartialEq, Eq, Structural)]
pub enum ConfigError {
    /// The temperature and speed step arrays have different lengths.
    StepCountMismatch,
}

/// A sequence is sorted in non-decreasing order.
pub open spec fn non_decreasing(s: Seq<u8>) -> bool {
    forall|i: int, j: int| 0 <= i <= j < s.len() ==> s[i] <= s[j]
}

/// A validated, immutable fan curve: matched temperature/speed breakpoints
/// plus an optional manual override.  Constructed only by [`validate`], so a
/// value of this type always satisfies [`CurveConfig::wf`].
#[derive(Debug)]
pub struct CurveConfig {
    temp_steps: Vec<u8>,
    speed_steps: Vec<u8>,
    manual_speed: Option<u8>,
}

impl CurveConfig {
    /// The temperature breakpoints, in whole degrees.
    pub closed spec fn temps(self) -> Seq<u8> {
        self.temp_steps@
    }

    /// The speed assigned to each breakpoint, in percent.
    pub closed spec fn speeds(self) -> Seq<u8> {
        self.speed_steps@
    }

    /// The manual override, in percent, if one is set.
    pub closed spec fn manual(self) -> Option<u8> {
        self.manual_speed
    }

    /// Well-formedness: as many speeds as temperatures, at least one
    /// breakpoint, both arrays non-decreasing, and every speed (and the
    /// override, when present) a percentage.
    pub open spec fn wf(self) -> bool {
        &&& self.temps().len() == self.speeds().len()
        &&& self.temps().len() >= 1
        &&& non_decreasing(self.temps())
        &&& non_decreasing(self.speeds())
        &&& forall|i: int| 0 <= i < self.speeds().len() ==> self.speeds()[i] <= 100
        &&& match self.manual() {
            Some(v) => v <= 100,
            None => true,
        }
    }

    /// The temperature breakpoints held by this curve.
    pub fn get_temp_step(&self) -> (r: &Vec<u8>)
        ensures
            r@ == self.temps(),
    {
        &self.temp_steps
    }

    /// The per-breakpoint speeds held by this curve.
    pub fn get_speed_step(&self) -> (r: &Vec<u8>)
        ensures
            r@ == self.speeds(),
    {
        &self.speed_steps
    }

    /// The manual override, if one is set.
    pub fn get_manual_speed(&self) -> (r: Option<u8>)
        ensures
            r == self.manual(),
    {
        self.manual_speed
    }
}

/// Builds a [`CurveConfig`] from raw step arrays, re-asserting the one
/// structural invariant the interpolator depends on: the two arrays must have
/// the same length.  Ordering and percentage ranges are the input boundary's
/// responsibility and are assumed here, not inspected.
pub fn validate(temp_steps: Vec<u8>, speed_steps: Vec<u8>, manual_speed: Option<u8>) -> (r: Result<
    CurveConfig,
    ConfigError,
>)
    requires
        temp_steps@.len() >= 1,
        non_decreasing(temp_steps@),
        non_decreasing(speed_steps@),
        forall|i: int| 0 <= i < speed_steps@.len() ==> speed_steps@[i] <= 100,
        match manual_speed {
            Some(v) => v <= 100,
            None => true,
        },
    ensures
        match r {
            Ok(cfg) => {
                &&& temp_steps@.len() == speed_steps@.len()
                &&& cfg.wf()
                &&& cfg.temps() == temp_steps@
                &&& cfg.speeds() == speed_steps@
                &&& cfg.manual() == manual_speed
            },
            Err(e) => {
                &&& temp_steps@.len() != speed_steps@.len()
                &&& e == ConfigError::StepCountMismatch
            },
        },
{
    if temp_steps.len() == speed_steps.len() {
        Ok(CurveConfig { temp_steps, speed_steps, manual_speed })
    } else {
        Err(ConfigError::StepCountMismatch)
    }
}

/// Linear interpolation between breakpoints `i` and `i + 1`, with integer
/// floor division on the percentage.  When the two breakpoints share a
/// temperature the bracket is degenerate and the earlier breakpoint's speed
/// is used (lowest index wins, as everywhere in the scan).
pub open spec fn interp_at(temps: Seq<u8>, speeds: Seq<u8>, t: u8, i: int) -> int
    recommends
        0 <= i < temps.len() - 1,
        temps.len() == speeds.len(),
{
    if temps[i + 1] == temps[i] {
        speeds[i] as int
    } else {
        speeds[i] + (speeds[i + 1] - speeds[i]) * (t - temps[i]) / (temps[i + 1] - temps[i])
    }
}

/// The index of the first bracket at or after `i` that contains `t`, that is
/// the least `k >= i` with `temps[k] <= t <= temps[k + 1]`; `temps.len() - 1`
/// if no bracket contains `t`.
pub open spec fn bracket_index(temps: Seq<u8>, t: u8, i: int) -> int
    recommends
        0 <= i,
    decreases temps.len() - i,
{
    if i >= temps.len() - 1 {
        i
    } else if temps[i] <= t && t <= temps[i + 1] {
        i
    } else {
        bracket_index(temps, t, i + 1)
    }
}

/// The duty cycle, in percent, that the interpolator assigns to temperature
/// `t` under configuration `cfg`: the manual override when one is set, the
/// first (or last) breakpoint's speed when `t` lies below (or above) the
/// configured range, and otherwise linear interpolation inside the first
/// bracket of the curve that contains `t`.
pub open spec fn duty_spec(t: u8, cfg: CurveConfig) -> int
    recommends
        cfg.wf(),
{
    match cfg.manual() {
        Some(v) => v as int,
        None => {
            let temps = cfg.temps();
            let speeds = cfg.speeds();
            if t < temps[0] {
                speeds[0] as int
            } else if t > temps[temps.len() - 1] {
                speeds[temps.len() - 1] as int
            } else if temps.len() == 1 {
                speeds[0] as int
            } else {
                interp_at(temps, speeds, t, bracket_index(temps, t, 0))
            }
        },
    }
}

/// In a sorted breakpoint array, every temperature between the first and the
/// last breakpoint falls inside some bracket.
proof fn lemma_bracket_exists(temps: Seq<u8>, t: u8)
    requires
        temps.len() >= 2,
        non_decreasing(temps),
        temps[0] <= t,
        t <= temps[temps.len() - 1],
    ensures
        exists|k: int|
            #![trigger temps[k]]
            0 <= k < temps.len() - 1 && temps[k] <= t && t <= temps[k + 1],
    decreases temps.len(),
{
    if t <= temps[1] {
        assert(0 <= 0int < temps.len() - 1 && temps[0int] <= t && t <= temps[0int + 1]);
    } else {
        let sub = temps.subrange(1, temps.len() as int);
        assert(non_decreasing(sub)) by {
            assert(forall|i: int, j: int|
                0 <= i <= j < sub.len() ==> sub[i] == temps[i + 1] && sub[j] == temps[j + 1]);
        }
        lemma_bracket_exists(sub, t);
        let k = choose|k: int|
            #![trigger sub[k]]
            0 <= k < sub.len() - 1 && sub[k] <= t && t <= sub[k + 1];
        assert(0 <= k + 1 < temps.len() - 1 && temps[k + 1] <= t && t <= temps[(k + 1) + 1]);
    }
}

/// If `i` is a bracket containing `t` and no bracket from `j` up to `i`
/// contains it, the scan started at `j` stops exactly at `i`.
proof fn lemma_bracket_index_from(temps: Seq<u8>, t: u8, j: int, i: int)
    requires
        0 <= j <= i,
        i < temps.len() - 1,
        temps[i] <= t && t <= temps[i + 1],
        forall|k: int|
            #![trigger temps[k]]
            j <= k < i ==> !(temps[k] <= t && t <= temps[k + 1]),
    ensures
        bracket_index(temps, t, j) == i,
    decreases i - j,
{
    if j < i {
        lemma_bracket_index_from(temps, t, j + 1, i);
    }
}

/// The interpolation step `sr * td / tr` never exceeds the speed range `sr`
/// when the temperature offset `td` stays within the bracket width `tr`.
proof fn lemma_interp_calc_bounds(sr: int, td: int, tr: int)
    requires
        0 <= sr,
        0 <= td <= tr,
        0 < tr,
    ensures
        0 <= sr * td / tr <= sr,
{
    lemma_mul_nonnegative(sr, td);
    lemma_div_pos_is_pos(sr * td, tr);
    lemma_mul_inequality(td, tr, sr);
    lemma_div_is_ordered(sr * td, sr * tr, tr);
    lemma_div_multiples_vanish(sr, tr);
}

/// If some bracket at or after `j` contains `t`, the scan started at `j`
/// stops at a bracket containing `t`.
proof fn lemma_bracket_index_finds(temps: Seq<u8>, t: u8, j: int)
    requires
        0 <= j,
        exists|k: int|
            #![trigger temps[k]]
            j <= k < temps.len() - 1 && temps[k] <= t && t <= temps[k + 1],
    ensures
        j <= bracket_index(temps, t, j) < temps.len() - 1,
        temps[bracket_index(temps, t, j)] <= t,
        t <= temps[bracket_index(temps, t, j) + 1],
    decreases temps.len() - j,
{
    if !(temps[j] <= t && t <= temps[j + 1]) {
        let k = choose|k: int|
            #![trigger temps[k]]
            j <= k < temps.len() - 1 && temps[k] <= t && t <= temps[k + 1];
        assert(j + 1 <= k);
        lemma_bracket_index_finds(temps, t, j + 1);
    }
}

/// Law: for every well-formed configuration and every temperature, the duty
/// cycle lies in the percentage range zero to one hundred.
pub proof fn lemma_duty_in_range(t: u8, cfg: CurveConfig)
    requires
        cfg.wf(),
    ensures
        0 <= duty_spec(t, cfg) <= 100,
{
    let temps = cfg.temps();
    let speeds = cfg.speeds();
    if cfg.manual() is None && !(t < temps[0]) && !(t > temps[temps.len() - 1]) && temps.len()
        >= 2 {
        lemma_bracket_exists(temps, t);
        lemma_bracket_index_finds(temps, t, 0);
        let b = bracket_index(temps, t, 0);
        if temps[b + 1] != temps[b] {
            lemma_interp_calc_bounds(
                speeds[b + 1] - speeds[b],
                t - temps[b],
                temps[b + 1] - temps[b],
            );
        }
    }
}

/// Law: a set manual override decides the duty cycle, whatever the
/// temperature reads.
pub proof fn lemma_manual_override_wins(t: u8, cfg: CurveConfig, v: u8)
    requires
        cfg.wf(),
        cfg.manual() == Some(v),
    ensures
        duty_spec(t, cfg) == v as int,
{
}

/// Law: with no override set, a temperature below the first breakpoint gets
/// the first breakpoint's speed, and one above the last breakpoint gets the
/// last breakpoint's speed.
pub proof fn lemma_out_of_range_clamp(t: u8, cfg: CurveConfig)
    requires
        cfg.wf(),
        cfg.manual() is None,
    ensures
        t < cfg.temps()[0] ==> duty_spec(t, cfg) == cfg.speeds()[0],
        t > cfg.temps()[cfg.temps().len() - 1] ==> duty_spec(t, cfg) == cfg.speeds()[
            cfg.temps().len() - 1
        ],
{
}

/// Law: at a breakpoint's own temperature the interpolator returns that
/// breakpoint's speed exactly, with no interpolation drift.  Stated for the
/// first breakpoint carrying a given temperature: when adjacent breakpoints
/// share one, the scan's lowest-index tie-break decides for the earliest.
pub proof fn lemma_boundary_exact(cfg: CurveConfig, i: int)
    requires
        cfg.wf(),
        cfg.manual() is None,
        0 <= i < cfg.temps().len(),
        forall|j: int| #![trigger cfg.temps()[j]] 0 <= j < i ==> cfg.temps()[j] != cfg.temps()[i],
    ensures
        duty_spec(cfg.temps()[i], cfg) == cfg.speeds()[i],
{
    let temps = cfg.temps();
    let speeds = cfg.speeds();
    let t = temps[i];
    assert(temps[0] <= t);
    assert(t <= temps[temps.len() - 1]);
    if temps.len() == 1 {
    } else if i == 0 {
        lemma_bracket_index_from(temps, t, 0, 0);
        if temps[1] != temps[0] {
            lemma_div_multiples_vanish(0, temps[1] - temps[0]);
            assert((speeds[1] - speeds[0]) * (t - temps[0]) == 0);
        }
    } else {
        assert(temps[i - 1] < t);
        assert forall|k: int|
            #![trigger temps[k]]
            0 <= k < i - 1 implies !(temps[k] <= t && t <= temps[k + 1]) by {
            assert(temps[k + 1] <= temps[i - 1]);
        }
        lemma_bracket_index_from(temps, t, 0, i - 1);
        let tr = temps[i] - temps[i - 1];
        let sr = speeds[i] - speeds[i - 1];
        assert(sr * tr == tr * sr);
        lemma_div_multiples_vanish(sr, tr);
    }
}

/// Law: computing a duty cycle is deterministic.  Any two results that meet
/// the interpolator's contract on the same temperature and configuration are
/// equal; there is no hidden state.
pub proof fn lemma_duty_cycle_deterministic(t: u8, cfg: CurveConfig, d1: u8, d2: u8)
    requires
        d1 as int == duty_spec(t, cfg),
        d2 as int == duty_spec(t, cfg),
    ensures
        d1 == d2,
{
}

/// Maps a temperature reading to the duty cycle to apply, in percent.
///
/// A set manual override wins outright; a reading outside the configured
/// range is clamped to the nearest breakpoint's speed; a reading inside it is
/// linearly interpolated within the first bracket that contains it, the
/// division rounding the percentage down.  Total for every well-formed
/// configuration: the per-tick control loop never observes an error.
pub fn compute_duty_cycle(temperature: u8, config: &CurveConfig) -> (duty: u8)
    requires
        config.wf(),
    ensures
        duty as int == duty_spec(temperature, *config),
        duty <= 100,
{
    match config.manual_speed {
        Some(v) => v,
        None => {
            let n = config.temp_steps.len();
            if temperature < config.temp_steps[0] {
                config.speed_steps[0]
            } else if temperature > config.temp_steps[n - 1] {
                config.speed_steps[n - 1]
            } else if n == 1 {
                config.speed_steps[0]
            } else {
                proof {
                    lemma_bracket_exists(config.temps(), temperature);
                }
                let ghost w: int = choose|k: int|
                    #![trigger config.temps()[k]]
                    0 <= k < config.temps().len() - 1 && config.temps()[k] <= temperature
                        && temperature <= config.temps()[k + 1];
                let mut i: usize = 0;
                loop
                    invariant
                        config.wf(),
                        n == config.temps().len(),
                        2 <= n,
                        config.temps()[0] <= temperature,
                        temperature <= config.temps()[n - 1],
                        config.manual() is None,
                        0 <= i <= w,
                        w < n - 1,
                        config.temps()[w] <= temperature && temperature <= config.temps()[w + 1],
                        forall|k: int|
                            #![trigger config.temps()[k]]
                            0 <= k < i ==> !(config.temps()[k] <= temperature && temperature
                                <= config.temps()[k + 1]),
                    decreases n - 1 - i,
                {
                    let lo_t = config.temp_steps[i];
                    let hi_t = config.temp_steps[i + 1];
                    if lo_t <= temperature && temperature <= hi_t {
                        proof {
                            lemma_bracket_index_from(config.temps(), temperature, 0, i as int);
                        }
                        let lo_s = config.speed_steps[i];
                        let hi_s = config.speed_steps[i + 1];
                        if hi_t == lo_t {
                            return lo_s;
                        }
                        let temp_range: u16 = (hi_t - lo_t) as u16;
                        let speed_range: u16 = (hi_s - lo_s) as u16;
                        let temp_diff: u16 = (temperature - lo_t) as u16;
                        proof {
                            lemma_mul_inequality(speed_range as int, 100, temp_diff as int);
                            lemma_mul_inequality(temp_diff as int, 255, 100);
                            lemma_interp_calc_bounds(
                                speed_range as int,
                                temp_diff as int,
                                temp_range as int,
                            );
                        }
                        let calc: u16 = speed_range * temp_diff / temp_range;
                        return (lo_s as u16 + calc) as u8;
                    }
                    i = i + 1;
                }
            }
        },
    }
}

} // verus!
