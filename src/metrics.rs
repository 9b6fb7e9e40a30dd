//! Words per minute and accuracy, from the keystroke counters.
use vstd::prelude::*;

verus! {

/// `num / den` rounded to the nearest integer, halves upward.
pub open spec fn round_div(num: nat, den: nat) -> nat
    recommends
        den > 0,
{
    ((2 * num + den) / (2 * den)) as nat
}

/// Accuracy in percent: the share of correct keystrokes, rounded; 100 when
/// nothing has been typed.
pub open spec fn accuracy_percent(correct: nat, total: nat) -> nat {
    if total == 0 {
        100
    } else {
        round_div(100 * correct, total)
    }
}

/// Words per minute over `elapsed_ms` milliseconds, counting five correct
/// characters as a word, rounded; 0 when no time has passed.
pub open spec fn words_per_minute(correct: nat, elapsed_ms: nat) -> nat {
    if elapsed_ms == 0 {
        0
    } else {
        round_div(12000 * correct, elapsed_ms)
    }
}

/// Accuracy in percent of `correct_count` correct keystrokes among
/// `total_count`.
pub fn accuracy(correct_count: usize, total_count: usize) -> (r: u64)
    requires
        correct_count <= total_count,
    ensures
        r == accuracy_percent(correct_count as nat, total_count as nat),
        r <= 100,
{
    if total_count == 0 {
        return 100;
    }
    let c = correct_count as u128;
    let t = total_count as u128;
    assert(c <= 0xffff_ffff_ffff_ffff);
    assert(t <= 0xffff_ffff_ffff_ffff);
    let num = 100 * c;
    assert(2 * num + t <= 201 * t) by (nonlinear_arith)
        requires
            c <= t,
            num == 100 * c,
    ;
    let r = (2 * num + t) / (2 * t);
    assert(r <= 100) by (nonlinear_arith)
        requires
            2 * num + t <= 201 * t,
            t > 0,
            r == (2 * num + t) / (2 * t),
    ;
    assert(r == round_div(100 * correct_count as nat, total_count as nat));
    r as u64
}

/// Words per minute from `correct_count` correct characters typed in
/// `elapsed_ms` milliseconds.
pub fn wpm(correct_count: usize, elapsed_ms: u64) -> (r: u128)
    ensures
        r == words_per_minute(correct_count as nat, elapsed_ms as nat),
{
    if elapsed_ms == 0 {
        return 0;
    }
    let c = correct_count as u128;
    let e = elapsed_ms as u128;
    assert(c <= 0xffff_ffff_ffff_ffff);
    assert(e <= 0xffff_ffff_ffff_ffff);
    let num = 12000 * c;
    let r = (2 * num + e) / (2 * e);
    assert(r == round_div(12000 * correct_count as nat, elapsed_ms as nat));
    r
}

/// How an accuracy figure is shown.
#[derive(Debug, Clone, Copy, PartialEq, Eq, Structural)]
pub enum AccuracyBand {
    High,
    Medium,
    Low,
}

/// How a speed figure is shown on the results screen.
#[derive(Debug, Clone, Copy, PartialEq, Eq, Structural)]
pub enum SpeedBand {
    Fast,
    Good,
    Fair,
    Slow,
}

/// 95 to 100 percent is high, 80 to 94 medium, anything else low.
pub open spec fn accuracy_band_of(percent: nat) -> AccuracyBand {
    if 95 <= percent <= 100 {
        AccuracyBand::High
    } else if 80 <= percent <= 94 {
        AccuracyBand::Medium
    } else {
        AccuracyBand::Low
    }
}

/// 60 and above is fast, 40 to 59 good, 20 to 39 fair, below 20 slow.
pub open spec fn speed_band_of(wpm: nat) -> SpeedBand {
    if wpm >= 60 {
        SpeedBand::Fast
    } else if wpm >= 40 {
        SpeedBand::Good
    } else if wpm >= 20 {
        SpeedBand::Fair
    } else {
        SpeedBand::Slow
    }
}

/// The band an accuracy of `percent` is shown in.
pub fn accuracy_band(percent: u64) -> (b: AccuracyBand)
    ensures
        b == accuracy_band_of(percent as nat),
{
    if 95 <= percent && percent <= 100 {
        AccuracyBand::High
    } else if 80 <= percent && percent <= 94 {
        AccuracyBand::Medium
    } else {
        AccuracyBand::Low
    }
}

/// The band a speed of `wpm` words per minute is shown in.
pub fn speed_band(wpm: u128) -> (b: SpeedBand)
    ensures
        b == speed_band_of(wpm as nat),
{
    if wpm >= 60 {
        SpeedBand::Fast
    } else if wpm >= 40 {
        SpeedBand::Good
    } else if wpm >= 20 {
        SpeedBand::Fair
    } else {
        SpeedBand::Slow
    }
}

} // verus!
