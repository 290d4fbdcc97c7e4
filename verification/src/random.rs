//! The bits of the random numbers: eight generators side by side, one stream
//! for every tile and frame, the same in every run.

use vstd::prelude::*;
use crate::simd::Mi32;

verus! {

/// Eight xorshift generators. No lane of the state is ever zero, which is the
/// one state that such a generator does not leave.
pub struct Rng {
    state: Mi32,
}

/// The state after `state`: three shifts, each folded in with exclusive or.
pub open spec fn stepped(state: u32) -> u32 {
    let a = state ^ (state << 13);
    let b = a ^ (a >> 17);
    b ^ (b << 5)
}

/// Stirs the bits of a number, so that every bit of the number tells on
/// every bit of the result.
pub open spec fn stirred(h: u32) -> u32 {
    let a = (h ^ (h >> 16)).wrapping_mul(0x85eb_ca6b);
    let b = (a ^ (a >> 13)).wrapping_mul(0xc2b2_ae35);
    b ^ (b >> 16)
}

/// The state that lane `lane` starts with for the tile at `(x, y)` in frame
/// `frame`: the four numbers stirred into one, and a number of its own in
/// place of zero.
pub open spec fn seeded(x: u32, y: u32, frame: u32, lane: u32) -> u32 {
    let h = stirred(x ^ stirred(y ^ stirred(frame ^ stirred(lane))));
    if h == 0 {
        0x9e37_79b9
    } else {
        h
    }
}

/// Whether no lane is zero.
pub open spec fn alive(state: Mi32) -> bool {
    forall|k: int| 0 <= k < 8 ==> #[trigger] state.lane(k) != 0
}

/// A step never leads to zero but from zero.
pub proof fn lemma_step_stays_alive(state: u32)
    requires
        state != 0,
    ensures
        stepped(state) != 0,
{
    let a = state ^ (state << 13);
    let b = a ^ (a >> 17);
    assert(a != 0) by (bit_vector)
        requires
            state != 0,
            a == state ^ (state << 13),
    ;
    assert(b != 0) by (bit_vector)
        requires
            a != 0,
            b == a ^ (a >> 17),
    ;
    assert(b ^ (b << 5) != 0) by (bit_vector)
        requires
            b != 0,
    ;
}

/// Advances one generator.
fn step(state: u32) -> (r: u32)
    ensures
        r == stepped(state),
        state != 0 ==> r != 0,
{
    proof {
        if state != 0 {
            lemma_step_stays_alive(state);
        }
    }
    let a = state ^ (state << 13);
    let b = a ^ (a >> 17);
    b ^ (b << 5)
}

/// Stirs the bits of a number.
fn stir(h: u32) -> (r: u32)
    ensures
        r == stirred(h),
{
    let a = (h ^ (h >> 16)).wrapping_mul(0x85eb_ca6b);
    let b = (a ^ (a >> 13)).wrapping_mul(0xc2b2_ae35);
    b ^ (b >> 16)
}

/// Seeds one generator.
fn seed(x: u32, y: u32, frame: u32, lane: u32) -> (r: u32)
    ensures
        r == seeded(x, y, frame, lane),
        r != 0,
{
    let h = stir(x ^ stir(y ^ stir(frame ^ stir(lane))));
    if h == 0 {
        0x9e37_79b9
    } else {
        h
    }
}

impl Rng {
    #[verifier::type_invariant]
    spec fn inv(self) -> bool {
        alive(self.state)
    }

    /// The state of the eight generators.
    pub closed spec fn state(self) -> Mi32 {
        self.state
    }

    /// The generators of the tile at `(x, y)` in frame `frame`. The same tile
    /// and frame give the same generators, whenever and wherever.
    pub fn with_seed(x: u32, y: u32, frame: u32) -> (r: Rng)
        ensures
            forall|k: int|
                0 <= k < 8 ==> #[trigger] r.state().lane(k) == seeded(x, y, frame, k as u32),
            alive(r.state()),
    {
        let state = Mi32(
            seed(x, y, frame, 0),
            seed(x, y, frame, 1),
            seed(x, y, frame, 2),
            seed(x, y, frame, 3),
            seed(x, y, frame, 4),
            seed(x, y, frame, 5),
            seed(x, y, frame, 6),
            seed(x, y, frame, 7),
        );
        Rng { state }
    }

    /// Advances the eight generators and returns their new states: 32 random
    /// bits in every lane, never all of them zero.
    pub fn next_bits(&mut self) -> (r: Mi32)
        ensures
            forall|k: int|
                0 <= k < 8 ==> #[trigger] r.lane(k) == stepped(old(self).state().lane(k)),
            final(self).state() == r,
            alive(r),
    {
        proof {
            use_type_invariant(&*self);
        }
        let s = self.state;
        assert(s.lane(0) != 0 && s.lane(1) != 0 && s.lane(2) != 0 && s.lane(3) != 0 && s.lane(4)
            != 0 && s.lane(5) != 0 && s.lane(6) != 0 && s.lane(7) != 0);
        let r = Mi32(
            step(s.0),
            step(s.1),
            step(s.2),
            step(s.3),
            step(s.4),
            step(s.5),
            step(s.6),
            step(s.7),
        );
        self.state = r;
        r
    }
}

} // verus!
