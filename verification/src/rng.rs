//! The randomness source that every generation decision draws from.
//!
//! The source is an explicit value threaded through the model builder, the
//! walk and the assembler. Its deterministic variants make a whole generation
//! run a pure function of the seed, which the contracts state exactly; the
//! system variant draws from the operating system and promises only the range
//! of each draw.
use vstd::prelude::*;

use crate::Prob;
use crate::text::push_char;

verus! {

/// Multiplier of the linear-congruential step used by seeded sources.
pub const STEP_MUL: u64 = 6364136223846793005;

/// Increment of the linear-congruential step used by seeded sources.
pub const STEP_INC: u64 = 1442695040888963407;

/// A source of random draws.
#[derive(Clone, Copy, PartialEq, Eq, Structural, Debug)]
pub enum Randomness {
    /// A linear-congruential generator: every draw is a function of the
    /// state, so a fixed seed reproduces a whole generation run.
    Seeded { state: u64 },
    /// Always yields the same value, reduced into the requested range; with
    /// value zero, every draw selects index zero.
    Fixed { value: u64 },
    /// Draws from the process-wide generator; nothing is promised of a draw
    /// beyond its range.
    System,
}

/// The successor of a seeded state: one linear-congruential step.
pub open spec fn step_state_spec(state: u64) -> u64 {
    ((state * STEP_MUL + STEP_INC) % 0x1_0000_0000_0000_0000) as u64
}

/// One linear-congruential step, computed without overflow.
pub fn step_state(state: u64) -> (r: u64)
    ensures
        r == step_state_spec(state),
{
    proof {
        assert((state as int) * (STEP_MUL as int) + (STEP_INC as int)
            < 0x1_0000_0000_0000_0000_0000_0000_0000_0000) by (nonlinear_arith)
            requires
                0 <= state < 0x1_0000_0000_0000_0000,
        ;
    }
    let wide: u128 = (state as u128) * (STEP_MUL as u128) + (STEP_INC as u128);
    (wide % 0x1_0000_0000_0000_0000u128) as u64
}

impl Randomness {
    /// Whether every draw from this source is a function of its state.
    pub open spec fn is_deterministic(self) -> bool {
        !(self is System)
    }

    /// The state of the source after one draw.
    pub open spec fn spec_step(self) -> Randomness {
        match self {
            Randomness::Seeded { state } => Randomness::Seeded { state: step_state_spec(state) },
            _ => self,
        }
    }

    /// The value a deterministic source yields for one draw below `m`.
    pub open spec fn spec_value(self, m: u64) -> u64
        recommends
            m > 0,
    {
        match self {
            Randomness::Seeded { state } => (
            ((step_state_spec(state) >> 32) as int) % (m as int)) as u64,
            Randomness::Fixed { value } => ((value as int) % (m as int)) as u64,
            Randomness::System => 0,
        }
    }

    /// The outcome of one Bernoulli decision by a deterministic source.
    pub open spec fn spec_bernoulli(self, p: Prob) -> bool {
        self.spec_value(p.den as u64) < p.num
    }

    /// Draw a value below `m`: uniformly for the system source, and as the
    /// stated function of the state for a deterministic one.
    pub fn next_below(&mut self, m: u64) -> (r: u64)
        requires
            m > 0,
        ensures
            r < m,
            old(self).is_deterministic() ==> r == old(self).spec_value(m) && *final(self)
                == old(self).spec_step(),
            !old(self).is_deterministic() ==> *final(self) == *old(self),
    {
        match *self {
            Randomness::Seeded { state } => {
                let next: u64 = step_state(state);
                *self = Randomness::Seeded { state: next };
                (next >> 32) % m
            },
            Randomness::Fixed { value } => value % m,
            Randomness::System => sys_below(m),
        }
    }

    /// Make one Bernoulli decision with probability `p`. A zero probability
    /// never succeeds and a probability of one always does, whatever the
    /// source.
    pub fn bernoulli(&mut self, p: &Prob) -> (r: bool)
        requires
            p.wf(),
        ensures
            p.num == 0 ==> !r,
            p.num == p.den ==> r,
            old(self).is_deterministic() ==> r == old(self).spec_bernoulli(*p) && *final(self)
                == old(self).spec_step(),
            !old(self).is_deterministic() ==> *final(self) == *old(self),
    {
        let v: u64 = self.next_below(p.den as u64);
        v < p.num as u64
    }
}

/// Relies on rand::random_range: a uniform draw from `0..m`, a non-empty
/// range since `m > 0`, so the result is below `m`.
#[verifier::external_body]
fn sys_below(m: u64) -> (r: u64)
    requires
        m > 0,
    ensures
        r < m,
{
    rand::random_range(0..m)
}

/// The alphanumeric character with index `v`: upper-case letters first, then
/// lower-case letters, then digits.
pub open spec fn alnum_char_spec(v: u64) -> char
    recommends
        v < 62,
{
    if v < 26 {
        ((65 + v) as u8) as char
    } else if v < 52 {
        ((97 + v - 26) as u8) as char
    } else {
        ((48 + v - 52) as u8) as char
    }
}

/// The alphanumeric character with index `v`.
fn alnum_char(v: u64) -> (c: char)
    requires
        v < 62,
    ensures
        c == alnum_char_spec(v),
{
    let b: u8 = if v < 26 {
        65 + (v as u8)
    } else if v < 52 {
        97 + ((v - 26) as u8)
    } else {
        48 + ((v - 52) as u8)
    };
    b as char
}

/// The characters of a link identifier drawn from `rand`, `k` draws long,
/// with the state of the source after them.
pub open spec fn spec_link_chars(rand: Randomness, k: nat) -> (Seq<char>, Randomness)
    decreases k,
{
    if k == 0 {
        (Seq::<char>::empty(), rand)
    } else {
        let rest = spec_link_chars(rand.spec_step(), (k - 1) as nat);
        (seq![alnum_char_spec(rand.spec_value(62))] + rest.0, rest.1)
    }
}

/// The link identifier a deterministic source yields: first the length draw,
/// then one draw per character.
pub open spec fn spec_rand_link(rand: Randomness) -> (Seq<char>, Randomness) {
    spec_link_chars(rand.spec_step(), (4 + rand.spec_value(12)) as nat)
}

/// A fresh link identifier: alphanumeric, with a length drawn uniformly from
/// four to fifteen characters.
pub fn rand_link(rand: &mut Randomness) -> (r: String)
    ensures
        4 <= r@.len() < 16,
        old(rand).is_deterministic() ==> r@ == spec_rand_link(*old(rand)).0 && *final(rand)
            == spec_rand_link(*old(rand)).1,
        old(rand).is_deterministic() ==> final(rand).is_deterministic(),
        !old(rand).is_deterministic() ==> *final(rand) == *old(rand),
{
    let len: u64 = 4 + rand.next_below(12);
    let ghost det = old(rand).is_deterministic();
    let ghost mid = *rand;
    let mut s = String::new();
    let mut i: u64 = 0;
    while i < len
        invariant
            i <= len,
            4 <= len < 16,
            s@.len() == i,
            det == old(rand).is_deterministic(),
            det ==> len == 4 + old(rand).spec_value(12) && mid == old(rand).spec_step(),
            det ==> s@ + spec_link_chars(*rand, (len - i) as nat).0 == spec_link_chars(
                mid,
                len as nat,
            ).0,
            det ==> spec_link_chars(*rand, (len - i) as nat).1 == spec_link_chars(
                mid,
                len as nat,
            ).1,
            det ==> rand.is_deterministic(),
            !det ==> *rand == *old(rand),
        decreases len - i,
    {
        let ghost before = *rand;
        let v: u64 = rand.next_below(62);
        let c: char = alnum_char(v);
        push_char(&mut s, c);
        proof {
            if det {
                assert(spec_link_chars(before, (len - i) as nat).0 == seq![
                    alnum_char_spec(before.spec_value(62)),
                ] + spec_link_chars(before.spec_step(), (len - i - 1) as nat).0);
                assert(s@ + spec_link_chars(*rand, (len - i - 1) as nat).0 == spec_link_chars(
                    mid,
                    len as nat,
                ).0);
            }
        }
        i = i + 1;
    }
    proof {
        if det {
            assert(spec_link_chars(*rand, 0).0 == Seq::<char>::empty());
            assert(s@ + Seq::<char>::empty() == s@);
            assert(s@ == spec_link_chars(mid, len as nat).0);
        }
    }
    s
}

} // verus!
