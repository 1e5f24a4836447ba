use vstd::prelude::*;
use vstd::string::StringExecFns;
use crate::text::{decimal, decimal_string};

verus! {

/// Resolution of the musical timeline: one beat is this many microbeats.
pub const MICROBEATS_PER_BEAT: i128 = 1_000_000;

/// Position as a sample frame index (0-indexed from start of audio file).
#[derive(Debug, Clone, Copy, PartialEq, Eq, PartialOrd, Ord)]
pub struct FrameIndex(pub usize);

/// Standard time signature: numerator/denominator (e.g. 4/4, 3/4, 6/8).
#[derive(Debug, Clone, Copy, PartialEq, Eq)]
pub struct TimeSignature {
    /// Beats per bar (e.g. 4 in 4/4).
    pub numerator: u8,
    /// Note value of one beat (e.g. 4 = quarter note, 8 = eighth note).
    pub denominator: u8,
}

impl TimeSignature {
    pub fn new(numerator: u8, denominator: u8) -> (r: Self)
        ensures
            r.numerator == numerator,
            r.denominator == denominator,
    {
        Self { numerator, denominator }
    }

    /// Beats per bar.
    pub fn beats_per_bar(&self) -> (r: u8)
        ensures
            r == self.numerator,
    {
        self.numerator
    }

    /// The time signature as it is written: `numerator/denominator`, both in
    /// decimal (e.g. "6/8").
    pub fn display_string(&self) -> (r: String)
        ensures
            r@ == decimal(self.numerator as nat) + seq!['/'] + decimal(self.denominator as nat),
    {
        let mut s = decimal_string(self.numerator as usize);
        proof {
            reveal_strlit("/");
        }
        s.append("/");
        let d = decimal_string(self.denominator as usize);
        s.append(d.as_str());
        s
    }

    /// Length of one bar in microbeats.
    pub fn bar_microbeats(&self) -> (r: i128)
        ensures
            r == self.numerator * MICROBEATS_PER_BEAT,
    {
        (self.numerator as i128) * MICROBEATS_PER_BEAT
    }
}

impl Default for TimeSignature {
    fn default() -> (r: Self)
        ensures
            r.numerator == 4,
            r.denominator == 4,
    {
        Self { numerator: 4, denominator: 4 }
    }
}

/// `n / d` rounded to the nearest integer, halves rounded up.
pub open spec fn round_div(n: int, d: int) -> int
    recommends
        d > 0,
{
    (2 * n + d) / (2 * d)
}

/// Musical position (in microbeats) of a MIDI tick at `ppq` ticks per beat.
pub open spec fn tick_microbeats(tick: int, ppq: int) -> int
    recommends
        ppq > 0,
{
    round_div(tick * MICROBEATS_PER_BEAT, ppq)
}

/// Converts a MIDI tick position to microbeats, rounding to the nearest microbeat.
pub fn ticks_to_microbeats(tick: u64, ppq: u16) -> (r: i128)
    requires
        ppq > 0,
    ensures
        r == tick_microbeats(tick as int, ppq as int),
        r >= 0,
{
    let n: i128 = (tick as i128) * MICROBEATS_PER_BEAT;
    let d: i128 = ppq as i128;
    assert(0 <= n <= 0x1_0000_0000_0000_0000 * 1_000_000) by (nonlinear_arith)
        requires n == tick as i128 * 1_000_000, tick <= 0xffff_ffff_ffff_ffff;
    (2 * n + d) / (2 * d)
}

} // verus!

verus! {

/// A tempo in beats per minute, carried as the bit pattern of an IEEE-754
/// double so that it passes through the library unchanged.
#[derive(Debug, Clone, Copy, PartialEq, Eq)]
pub struct Bpm {
    pub bits: u64,
}

/// The double with these bits is a NaN.
pub open spec fn f64_bits_is_nan(bits: u64) -> bool {
    &&& bits & 0x7ff0_0000_0000_0000u64 == 0x7ff0_0000_0000_0000u64
    &&& bits & 0x000f_ffff_ffff_ffffu64 != 0
}

/// The double with these bits compares `<= 0.0` (zero of either sign, any
/// negative value; a NaN compares false).
pub open spec fn f64_bits_le_zero(bits: u64) -> bool {
    &&& !f64_bits_is_nan(bits)
    &&& (bits == 0 || bits & 0x8000_0000_0000_0000u64 != 0)
}

impl Bpm {
    /// Whether this tempo compares `<= 0.0`.
    pub fn is_at_most_zero(&self) -> (r: bool)
        ensures
            r == f64_bits_le_zero(self.bits),
    {
        let nan = self.bits & 0x7ff0_0000_0000_0000u64 == 0x7ff0_0000_0000_0000u64
            && self.bits & 0x000f_ffff_ffff_ffffu64 != 0;
        !nan && (self.bits == 0 || self.bits & 0x8000_0000_0000_0000u64 != 0)
    }
}

/// The tempo a set of MIDI sources is played at: either a tempo in beats per
/// minute given by the caller, or a file's tempo event in microseconds per beat.
#[derive(Debug, Clone, Copy, PartialEq, Eq)]
pub enum Tempo {
    Bpm(Bpm),
    MicrosPerBeat(u32),
}

} // verus!
