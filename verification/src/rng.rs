//! [`SplitMix64`]: the seeded generator behind layer assignment.

use vstd::prelude::*;

verus! {

/// The SplitMix64 increment.
pub const GAMMA: u64 = 0x9E37_79B9_7F4A_7C15;

/// First multiplier of the SplitMix64 output mix.
pub const MIX1: u64 = 0xBF58_476D_1CE4_E5B9;

/// Second multiplier of the SplitMix64 output mix.
pub const MIX2: u64 = 0x94D0_49BB_1331_11EB;

/// The largest value [`SplitMix64::next_open_bits`] can return, plus one:
/// draws have 53 significant bits.
pub const OPEN_BITS_BOUND: u64 = 0x20_0000_0000_0000;

/// The SplitMix64 output function applied to an advanced state.
pub open spec fn mix(s: u64) -> u64 {
    let z1 = (s ^ (s >> 30u64)).wrapping_mul(MIX1);
    let z2 = (z1 ^ (z1 >> 27u64)).wrapping_mul(MIX2);
    z2 ^ (z2 >> 31u64)
}

/// The state that follows `s`.
pub open spec fn advance(s: u64) -> u64 {
    s.wrapping_add(GAMMA)
}

/// The top 53 bits of the output drawn from state `s`.
pub open spec fn top_bits(s: u64) -> u64 {
    mix(advance(s)) >> 11u64
}

/// An open-interval draw from state `s` with `tries` attempts left: the
/// first non-zero 53-bit draw, or `1` (the smallest positive draw) when
/// every attempt gave zero. Returns the draw and the state after it.
pub open spec fn open_draw(s: u64, tries: nat) -> (u64, u64)
    decreases tries,
{
    if tries == 0 {
        (1, s)
    } else if top_bits(s) != 0 {
        (top_bits(s), advance(s))
    } else {
        open_draw(advance(s), (tries - 1) as nat)
    }
}

/// The state of a generator seeded with `seed` after `n` open-interval
/// draws ([`SplitMix64::next_open_bits`]).
pub open spec fn draws(seed: u64, n: nat) -> u64
    decreases n,
{
    if n == 0 {
        seed
    } else {
        open_draw(draws(seed, (n - 1) as nat), 4).1
    }
}

/// A deterministic 64-bit generator (Vigna's SplitMix64).
///
/// Two generators built from the same seed produce the same draws.
#[derive(Debug, Clone)]
pub struct SplitMix64 {
    state: u64,
}

impl View for SplitMix64 {
    type V = u64;

    /// The generator's state.
    closed spec fn view(&self) -> u64 {
        self.state
    }
}

impl SplitMix64 {
    /// A generator whose state is `seed`.
    pub fn new(seed: u64) -> (r: Self)
        ensures
            r@ == seed,
    {
        SplitMix64 { state: seed }
    }

    /// Advance the state by [`GAMMA`] (wrapping) and return the mixed output.
    pub fn next_u64(&mut self) -> (r: u64)
        ensures
            final(self)@ == advance(old(self)@),
            r == mix(final(self)@),
    {
        self.state = self.state.wrapping_add(GAMMA);
        let s = self.state;
        let z1 = (s ^ (s >> 30u64)).wrapping_mul(MIX1);
        let z2 = (z1 ^ (z1 >> 27u64)).wrapping_mul(MIX2);
        z2 ^ (z2 >> 31u64)
    }

    /// Draw a numerator `b` of the open-unit sample `b / 2^53` in `(0, 1)`:
    /// up to four 53-bit draws are made and the first non-zero one is
    /// returned; if all four are zero the result is `1`.
    pub fn next_open_bits(&mut self) -> (r: u64)
        ensures
            (r, final(self)@) == open_draw(old(self)@, 4),
            0 < r < OPEN_BITS_BOUND,
    {
        let mut tries: u64 = 0;
        while tries < 4
            invariant
                tries <= 4,
                open_draw(old(self)@, 4) == open_draw(self@, (4 - tries) as nat),
            decreases 4 - tries,
        {
            let ghost before = self@;
            let bits = self.next_u64() >> 11u64;
            assert(bits == top_bits(before));
            if bits != 0 {
                assert(bits < OPEN_BITS_BOUND) by (bit_vector)
                    requires
                        bits == (mix(advance(before)) >> 11u64),
                ;
                return bits;
            }
            tries = tries + 1;
        }
        1
    }

    /// The draw [`SplitMix64::next_open_bits`] would return, without
    /// advancing the generator.
    pub fn peek_open_bits(&self) -> (r: u64)
        ensures
            r == open_draw(self@, 4).0,
            0 < r < OPEN_BITS_BOUND,
    {
        let mut copy = SplitMix64 { state: self.state };
        copy.next_open_bits()
    }
}

} // verus!
