//! Spans of time.

use vstd::arithmetic::div_mod::*;
use vstd::arithmetic::power2::*;
use vstd::prelude::*;

use crate::binary64;
use crate::binary64::Binary64;

verus! {

/// A span of time of whole nanoseconds.
#[derive(Debug, Clone, Copy, PartialEq, Eq)]
pub struct Duration {
    secs: u64,
    nanos: u32,
}

/// The whole number of nanoseconds nearest to the number of seconds `a`.
///
/// The number is given by its significand and its exponent.
pub open spec fn nearest_nanos(a: (nat, int)) -> nat {
    if a.1 >= 0 {
        a.0 * pow2(a.1 as nat) * 1_000_000_000
    } else {
        binary64::half_even(a.0 * 1_000_000_000, pow2((-a.1) as nat))
    }
}

impl View for Duration {
    type V = nat;

    /// The number of nanoseconds.
    closed spec fn view(&self) -> nat {
        self.secs as nat * 1_000_000_000 + self.nanos as nat
    }
}

impl Duration {
    #[verifier::type_invariant]
    spec fn well_formed(self) -> bool {
        self.nanos < 1_000_000_000
    }

    /// A span of `secs` seconds.
    pub fn from_secs(secs: u64) -> (d: Duration)
        ensures
            d@ == secs * 1_000_000_000,
    {
        Duration { secs, nanos: 0 }
    }

    /// A span of `millis` milliseconds.
    pub fn from_millis(millis: u64) -> (d: Duration)
        ensures
            d@ == millis * 1_000_000,
    {
        Duration { secs: millis / 1000, nanos: (millis % 1000) as u32 * 1_000_000 }
    }

    /// A span of `micros` microseconds.
    pub fn from_micros(micros: u64) -> (d: Duration)
        ensures
            d@ == micros * 1000,
    {
        Duration { secs: micros / 1_000_000, nanos: (micros % 1_000_000) as u32 * 1000 }
    }

    /// A span of `secs` seconds and `nanos` nanoseconds, where those make less than a second.
    pub fn from_parts(secs: u64, nanos: u32) -> (d: Option<Duration>)
        ensures
            d is Some == (nanos < 1_000_000_000),
            d matches Some(d) ==> d@ == secs * 1_000_000_000 + nanos,
    {
        if nanos < 1_000_000_000 {
            Some(Duration { secs, nanos })
        } else {
            None
        }
    }

    /// The whole seconds of the span.
    pub fn as_secs(&self) -> (secs: u64)
        ensures
            secs == self@ / 1_000_000_000,
    {
        proof {
            use_type_invariant(self);
            lemma_fundamental_div_mod_converse(
                self@ as int,
                1_000_000_000,
                self.secs as int,
                self.nanos as int,
            );
        }
        self.secs
    }

    /// The nanoseconds of the span beyond its whole seconds.
    pub fn subsec_nanos(&self) -> (nanos: u32)
        ensures
            nanos == self@ % 1_000_000_000,
    {
        proof {
            use_type_invariant(self);
            lemma_fundamental_div_mod_converse(
                self@ as int,
                1_000_000_000,
                self.secs as int,
                self.nanos as int,
            );
        }
        self.nanos
    }

    /// The span in nanoseconds.
    pub fn as_nanos(&self) -> (nanos: u128)
        ensures
            nanos == self@,
    {
        self.secs as u128 * 1_000_000_000 + self.nanos as u128
    }

    /// The time from `earlier` to `self`, which is zero where `earlier` is later.
    pub fn saturating_since(&self, earlier: &Duration) -> (d: Duration)
        ensures
            d@ == if earlier@ <= self@ {
                (self@ - earlier@) as nat
            } else {
                0
            },
    {
        proof {
            use_type_invariant(self);
            use_type_invariant(earlier);
        }
        let a: u128 = self.as_nanos();
        let b: u128 = earlier.as_nanos();
        if b <= a {
            let left: u128 = a - b;
            Duration { secs: (left / 1_000_000_000) as u64, nanos: (left % 1_000_000_000) as u32 }
        } else {
            Duration { secs: 0, nanos: 0 }
        }
    }

    /// The span of `b` seconds, to the nearest nanosecond, where it is below 2^64 seconds.
    pub fn from_seconds(b: &Binary64) -> (d: Option<Duration>)
        requires
            b.well_formed(),
        ensures
            d is Some == (binary64::whole(b@) < 0x1_0000_0000_0000_0000),
            d matches Some(d) ==> d@ == nearest_nanos(b@),
    {
        proof {
            lemma2_to64();
        }
        if b.significand == 0 {
            proof {
                binary64::lemma_whole_zero(b.exponent as int);
                lemma_no_nanos(b.exponent as int);
            }
            return Some(Duration { secs: 0, nanos: 0 });
        }
        if b.exponent >= 64 {
            proof {
                let e = b.exponent as nat;
                if e > 64 {
                    lemma_pow2_strictly_increases(64, e);
                }
                let m = b.significand as nat;
                assert(m * pow2(e) >= pow2(64)) by (nonlinear_arith)
                    requires
                        m >= 1,
                        pow2(e) >= pow2(64),
                ;
            }
            return None;
        }
        if b.exponent >= 0 {
            let p: u128 = binary64::power_of_two(b.exponent as u32);
            proof {
                lemma_pow2_strictly_increases(b.exponent as nat, 64);
            }
            assert(b.significand * p <= 0x20_0000_0000_0000 * 0x1_0000_0000_0000_0000)
                by (nonlinear_arith)
                requires
                    b.significand <= 0x20_0000_0000_0000,
                    p <= 0x1_0000_0000_0000_0000,
            ;
            let product: u128 = b.significand as u128 * p;
            if product < 0x1_0000_0000_0000_0000 {
                Some(Duration { secs: product as u64, nanos: 0 })
            } else {
                None
            }
        } else {
            proof {
                binary64::lemma_whole_at_most(b.significand as nat, (-b.exponent) as nat);
            }
            let n: u128 = b.significand as u128 * 1_000_000_000;
            if b.exponent < -100 {
                proof {
                    lemma2_to64_rest();
                    lemma_pow2_adds(64, 36);
                    lemma_pow2_strictly_increases(100, (-b.exponent) as nat);
                    lemma_fundamental_div_mod_converse(
                        n as int,
                        pow2((-b.exponent) as nat) as int,
                        0,
                        n as int,
                    );
                }
                return Some(Duration { secs: 0, nanos: 0 });
            }
            let p: u128 = binary64::power_of_two((-b.exponent) as u32);
            proof {
                lemma2_to64_rest();
                lemma_pow2_adds(64, 36);
                lemma_pow2_pos((-b.exponent) as nat);
                if b.exponent > -100 {
                    lemma_pow2_strictly_increases((-b.exponent) as nat, 100);
                }
                binary64::lemma_div_no_more(n as nat, p as nat);
                lemma_mod_bound(n as int, p as int);
            }
            let q: u128 = n / p;
            let r: u128 = n % p;
            let total: u128 = if 2 * r < p || (2 * r == p && q % 2 == 0) {
                q
            } else {
                q + 1
            };
            Some(
                Duration {
                    secs: (total / 1_000_000_000) as u64,
                    nanos: (total % 1_000_000_000) as u32,
                },
            )
        }
    }
}

proof fn lemma_no_nanos(e: int)
    ensures
        nearest_nanos((0, e)) == 0,
{
    if e >= 0 {
        assert(0nat * pow2(e as nat) == 0);
    } else {
        let p = pow2((-e) as nat);
        lemma_pow2_pos((-e) as nat);
        lemma_fundamental_div_mod_converse(0, p as int, 0, 0);
    }
}

} // verus!
