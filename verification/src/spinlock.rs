//! Waiting.

use vstd::prelude::*;

verus! {

/// How often the time spent waiting doubles.
pub const SOFT_LIMIT: usize = 6;

/// How often waiting is taken to be worth while.
pub const HARD_LIMIT: usize = 12;

/// `core::hint::spin_loop` tells the processor that the program is waiting. It
/// has no effect on any value.
pub assume_specification[ core::hint::spin_loop ]()
;

/// Waits a little longer each time it is asked to.
pub struct Spinlock {
    spin_count: usize,
}

impl Default for Spinlock {
    fn default() -> (spinlock: Self)
        ensures
            spinlock@ == 0,
    {
        Self::new()
    }
}

impl Spinlock {
    /// How often waiting was counted.
    pub closed spec fn view(&self) -> nat {
        self.spin_count as nat
    }

    /// A lock that has not waited yet.
    #[must_use]
    pub fn new() -> (spinlock: Self)
        ensures
            spinlock@ == 0,
    {
        Spinlock { spin_count: 0 }
    }

    /// How long the next wait is: one at first, and twice as long with every wait
    /// up to the soft limit.
    pub fn spins(&self) -> (spins: u32)
        ensures
            spins == vstd::arithmetic::power2::pow2(
                if self@ < SOFT_LIMIT {
                    self@
                } else {
                    SOFT_LIMIT as nat
                },
            ),
    {
        let exponent: usize = self.spin_count.min(SOFT_LIMIT);
        proof {
            vstd::arithmetic::power2::lemma2_to64();
            vstd::bits::lemma_u32_pow2_no_overflow(exponent as nat);
            vstd::bits::lemma_u32_shl_is_mul(1, exponent as u32);
        }
        1u32 << exponent
    }

    /// Lets the processor idle.
    fn idle(&self) {
        let spins = self.spins();
        let mut i: u32 = 0;
        while i < spins
            invariant
                i <= spins,
            decreases spins - i,
        {
            core::hint::spin_loop();
            i = i + 1;
        }
    }

    /// Waits, and tells whether the soft limit is still to be reached.
    pub fn spin(&mut self) -> (go_on: bool)
        ensures
            final(self)@ == if old(self)@ <= SOFT_LIMIT {
                old(self)@ + 1
            } else {
                old(self)@
            },
            go_on == (final(self)@ <= SOFT_LIMIT),
    {
        self.idle();
        if self.spin_count <= SOFT_LIMIT {
            self.spin_count = self.spin_count + 1;
        }
        self.spin_count <= SOFT_LIMIT
    }

    /// Whether a wait should give way to other threads after idling.
    pub fn yields(&self) -> (give_way: bool)
        ensures
            give_way == (self@ > SOFT_LIMIT),
    {
        self.spin_count > SOFT_LIMIT
    }

    /// Waits, and tells whether the hard limit is still to be reached.
    pub fn spin_heavy(&mut self) -> (go_on: bool)
        ensures
            final(self)@ == if old(self)@ <= HARD_LIMIT {
                old(self)@ + 1
            } else {
                old(self)@
            },
            go_on == (final(self)@ <= HARD_LIMIT),
    {
        self.idle();
        if self.spin_count <= HARD_LIMIT {
            self.spin_count = self.spin_count + 1;
        }
        self.spin_count <= HARD_LIMIT
    }
}

} // verus!
