//! The uniform random source behind match generation.
//!
//! Team balancing consumes one raw 128-bit draw per weighted pick.  The
//! source is injected explicitly: by default the draws come from the
//! operating system's entropy, and for reproducible generation a fixed cycle
//! of draws can be supplied instead (as deterministic tests do).

use vstd::arithmetic::div_mod::lemma_mod_bound;
use vstd::arithmetic::div_mod::lemma_mod_self_0;
use vstd::arithmetic::div_mod::lemma_small_mod;
use vstd::prelude::*;

verus! {

/// Relies on `rand::random`: draws a value of type `T` from the thread-local
/// generator through the `Standard` distribution.  Nothing is promised of
/// the value drawn.
pub assume_specification<T>[ rand::random::<T> ]() -> (r: T)
    where
        rand::distributions::Standard: rand::distributions::Distribution<T>,
;

/// One raw 128-bit draw assembled from two 64-bit draws of the operating
/// system's entropy source.
fn random_u128() -> u128 {
    let hi: u64 = rand::random::<u64>();
    let lo: u64 = rand::random::<u64>();
    ((hi as u128) << 64) | (lo as u128)
}

/// A uniform random source: operating-system entropy by default, or a fixed
/// cycle of draws for deterministic, reproducible match generation.
pub struct RandomSource {
    /// When present, draws are taken cyclically from this list instead of
    /// the operating system.
    pub fixed: Option<Vec<u128>>,
    /// Position of the next draw within a fixed cycle.
    pub cursor: usize,
}

impl RandomSource {
    /// The source is deterministic.
    pub open spec fn is_fixed(self) -> bool {
        self.fixed is Some
    }

    /// The cycle of a fixed source.
    pub open spec fn fixed_draws(self) -> Seq<u128> {
        match self.fixed {
            Option::Some(d) => d@,
            Option::None => Seq::empty(),
        }
    }

    /// A fixed source holds at least one draw, with the cursor on one of
    /// them.
    pub open spec fn wf(self) -> bool {
        self.is_fixed() ==> self.fixed_draws().len() >= 1 && self.cursor
            < self.fixed_draws().len()
    }

    /// The draw a fixed source will hand out `k` draws from now.
    pub open spec fn draw_at(self, k: int) -> u128 {
        self.fixed_draws()[(self.cursor + k) % (self.fixed_draws().len() as int)]
    }

    /// The next `n` draws a fixed source will hand out, in order.
    pub open spec fn upcoming(self, n: nat) -> Seq<u128> {
        Seq::new(n, |k: int| self.draw_at(k))
    }

    /// The source after handing out `k` draws: same cycle, cursor moved on
    /// cyclically.
    pub open spec fn advanced(self, k: nat) -> RandomSource {
        RandomSource {
            fixed: self.fixed,
            cursor: (((self.cursor + k) % (self.fixed_draws().len() as int)) as usize),
        }
    }

    /// A source drawing from the operating system's entropy.
    pub fn entropy() -> (r: RandomSource)
        ensures
            !r.is_fixed(),
            r.wf(),
    {
        RandomSource { fixed: None, cursor: 0 }
    }

    /// A deterministic source cycling through the given draws.
    pub fn fixed(draws: Vec<u128>) -> (r: RandomSource)
        requires
            draws@.len() >= 1,
        ensures
            r.is_fixed(),
            r.wf(),
            r.fixed_draws() == draws@,
            r.cursor == 0,
    {
        RandomSource { fixed: Some(draws), cursor: 0 }
    }

    /// The next raw draw: from the operating system for an entropy source;
    /// for a fixed source, the draw under the cursor, which then moves on
    /// cyclically.
    pub fn next_draw(&mut self) -> (d: u128)
        requires
            old(self).wf(),
        ensures
            final (self).wf(),
            final (self).fixed == old(self).fixed,
            old(self).is_fixed() ==> d == old(self).draw_at(0) && *final (self) == old(
                self,
            ).advanced(1),
            !old(self).is_fixed() ==> final (self).cursor == old(self).cursor,
    {
        match &self.fixed {
            None => random_u128(),
            Some(draws) => {
                let n = draws.len();
                let d = draws[self.cursor];
                proof {
                    lemma_small_mod(self.cursor as nat, n as nat);
                    if self.cursor + 1 == n {
                        lemma_mod_self_0(n as int);
                    } else {
                        lemma_small_mod((self.cursor + 1) as nat, n as nat);
                    }
                }
                self.cursor = if self.cursor + 1 == n {
                    0
                } else {
                    self.cursor + 1
                };
                d
            },
        }
    }
}

/// Advancing by nothing changes nothing.
pub proof fn lemma_advanced_zero(src: RandomSource)
    requires
        src.wf(),
        src.is_fixed(),
    ensures
        src.advanced(0) == src,
{
    match src.fixed {
        Option::Some(d) => {
            assert(d.len() == d@.len());
        },
        Option::None => {},
    }
    lemma_small_mod(src.cursor as nat, src.fixed_draws().len() as nat);
}

/// Composing single advances: the draw `k` steps ahead of an advanced
/// source is the draw `j + k` steps ahead of the original, and advancing
/// twice adds up.
pub proof fn lemma_advanced_compose(src: RandomSource, j: nat, k: nat)
    requires
        src.wf(),
        src.is_fixed(),
    ensures
        src.advanced(j).wf(),
        src.advanced(j).is_fixed(),
        src.advanced(j).draw_at(k as int) == src.draw_at((j + k) as int),
        src.advanced(j).advanced(k) == src.advanced(j + k),
{
    match src.fixed {
        Option::Some(d) => {
            assert(d.len() == d@.len());
        },
        Option::None => {},
    }
    let len = src.fixed_draws().len() as int;
    let x = (src.cursor + j) as int;
    lemma_mod_bound(x, len);
    vstd::arithmetic::div_mod::lemma_add_mod_noop(x, k as int, len);
    vstd::arithmetic::div_mod::lemma_add_mod_noop(x % len, k as int, len);
    vstd::arithmetic::div_mod::lemma_mod_twice(x, len);
    assert((x % len + k) % len == (x + k) % len);
}

} // verus!
