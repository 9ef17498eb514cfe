use vstd::prelude::*;

verus! {

/// 2^64: the modulus of the wrapping 64-bit counters.
pub open spec fn counter_modulus() -> nat {
    0x1_0000_0000_0000_0000
}

/// `a + n`, wrapped around at 2^64 the way a 64-bit counter wraps.
pub open spec fn wadd(a: u64, n: nat) -> u64 {
    ((a as nat + n) % counter_modulus()) as u64
}

/// Adding two amounts one after the other wraps the same as adding their
/// sum at once.
pub proof fn lemma_wadd_twice(a: u64, h: nat, p: nat)
    requires
        p < counter_modulus(),
    ensures
        wadd(wadd(a, h), p) == wadd(a, h + p),
{
    let m = counter_modulus() as int;
    vstd::arithmetic::div_mod::lemma_add_mod_noop(a + h, p as int, m);
    vstd::arithmetic::div_mod::lemma_small_mod(p, m as nat);
    vstd::arithmetic::div_mod::lemma_mod_twice(a + h, m);
}

/// `a + n` on a 64-bit counter, wrapping at 2^64.
pub fn counter_add(a: u64, n: u64) -> (r: u64)
    ensures
        r == wadd(a, n as nat),
{
    a.wrapping_add(n)
}

/// Frame/byte counters for one port or one VLAN. Both kinds are updated
/// from the same `Switch::forward` call, so they stay consistent with each
/// other. Every counter wraps at 2^64.
#[derive(Debug, Clone, Copy, PartialEq, Eq)]
pub struct Counters {
    pub frames_in: u64,
    pub bytes_in: u64,
    pub frames_out: u64,
    pub bytes_out: u64,
    /// Frames rejected at ingress for a VLAN/tagging policy violation, not
    /// an ordinary "no known destination" flood.
    pub drops: u64,
}

impl Counters {
    pub open spec fn zero_spec() -> Counters {
        Counters { frames_in: 0, bytes_in: 0, frames_out: 0, bytes_out: 0, drops: 0 }
    }

    /// All counters at zero.
    pub fn zero() -> (c: Counters)
        ensures
            c == Self::zero_spec(),
    {
        Counters { frames_in: 0, bytes_in: 0, frames_out: 0, bytes_out: 0, drops: 0 }
    }

    /// One more frame of `len` bytes received.
    pub open spec fn count_in(self, len: nat) -> Counters {
        Counters {
            frames_in: wadd(self.frames_in, 1),
            bytes_in: wadd(self.bytes_in, len),
            ..self
        }
    }

    /// One more frame of `len` bytes sent.
    pub open spec fn count_out(self, len: nat) -> Counters {
        Counters {
            frames_out: wadd(self.frames_out, 1),
            bytes_out: wadd(self.bytes_out, len),
            ..self
        }
    }

    /// One more frame rejected at ingress.
    pub open spec fn count_drop(self) -> Counters {
        Counters { drops: wadd(self.drops, 1), ..self }
    }
}

impl Default for Counters {
    fn default() -> (c: Counters)
        ensures
            c == Counters::zero_spec(),
    {
        Counters::zero()
    }
}

} // verus!
