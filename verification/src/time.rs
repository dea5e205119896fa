//! The time values the `get_time` syscall reports: a monotonic microsecond
//! count split into whole seconds and the remaining microseconds.

use vstd::prelude::*;
use vstd::arithmetic::div_mod::lemma_fundamental_div_mod;
use crate::bytes::le_bytes_of;
use crate::bytes::usize_to_u8_array;

verus! {

/// Microseconds per second.
pub const USEC_PER_SEC: usize = 1_000_000;

/// Wall-clock time as the user sees it: two consecutive machine words,
/// seconds then microseconds, no padding.
#[derive(Clone, Copy, Debug, PartialEq, Eq, Structural)]
pub struct TimeVal {
    /// Whole seconds.
    pub sec: usize,
    /// Microseconds below one second.
    pub usec: usize,
}

/// The seconds field `get_time` derives from a microsecond count.
pub open spec fn sec_of(now_us: nat) -> nat {
    now_us / USEC_PER_SEC as nat
}

/// The microseconds field `get_time` derives from a microsecond count.
pub open spec fn usec_of(now_us: nat) -> nat {
    now_us % USEC_PER_SEC as nat
}

/// The user-visible layout of a `TimeVal`: each word as eight little-endian
/// bytes, seconds first.
pub open spec fn time_val_bytes(sec: nat, usec: nat) -> Seq<u8> {
    le_bytes_of(sec, 8) + le_bytes_of(usec, 8)
}

impl TimeVal {
    /// The time value for the microsecond count `now_us`.
    pub fn from_us(now_us: usize) -> (r: TimeVal)
        ensures
            r.sec == sec_of(now_us as nat),
            r.usec == usec_of(now_us as nat),
    {
        TimeVal { sec: now_us / USEC_PER_SEC, usec: now_us % USEC_PER_SEC }
    }

    /// Serializes the value in its user-visible layout.
    pub fn to_bytes(&self) -> (r: Vec<u8>)
        ensures
            r@ == time_val_bytes(self.sec as nat, self.usec as nat),
            r@.len() == 16,
    {
        let mut out = usize_to_u8_array(self.sec);
        let mut tail = usize_to_u8_array(self.usec);
        out.append(&mut tail);
        out
    }
}

/// Splitting a microsecond count into seconds and microseconds loses nothing:
/// the fields recombine to the exact count.
pub proof fn lemma_time_val_exact(now_us: nat)
    ensures
        sec_of(now_us) * USEC_PER_SEC + usec_of(now_us) == now_us,
{
    lemma_fundamental_div_mod(now_us as int, USEC_PER_SEC as int);
}

/// Two `get_time` readings a known interval apart differ by exactly that
/// interval once each reading's fields are recombined to microseconds.
pub proof fn lemma_get_time_interval(now1: nat, now2: nat)
    requires
        now1 <= now2,
    ensures
        (sec_of(now2) * USEC_PER_SEC + usec_of(now2)) - (sec_of(now1) * USEC_PER_SEC + usec_of(
            now1,
        )) == now2 - now1,
{
    lemma_time_val_exact(now1);
    lemma_time_val_exact(now2);
}

} // verus!
