//! Reading finite IEEE-754 binary64 values from their bit patterns.
use vstd::prelude::*;

verus! {

/// `2^n`.
pub open spec fn two_pow(n: nat) -> nat
    decreases n,
{
    if n == 0 {
        1
    } else {
        2 * two_pow((n - 1) as nat)
    }
}

/// `2^52`, the weight of the implicit leading bit of a normal value.
pub open spec fn hidden_bit() -> int {
    0x10_0000_0000_0000
}

/// The sign bit is set.
pub open spec fn bits_negative(b: u64) -> bool {
    b >= 0x8000_0000_0000_0000
}

/// The 11-bit biased exponent field.
pub open spec fn bits_exponent(b: u64) -> int {
    ((b / 0x10_0000_0000_0000) % 2048) as int
}

/// The 52-bit fraction field.
pub open spec fn bits_fraction(b: u64) -> int {
    (b % 0x10_0000_0000_0000) as int
}

/// The value `b` encodes is `±(2^52 + fraction) * 2^(exponent - 1075)` when
/// the exponent field is neither 0 (zero or subnormal, magnitude below 1) nor
/// 2047 (infinite or NaN). This is the integer part, truncated toward zero,
/// of a finite value whose magnitude is below `2^53`; `None` otherwise.
pub open spec fn trunc_below_2_53(b: u64) -> Option<int> {
    let e = bits_exponent(b);
    let sig = bits_fraction(b) + hidden_bit();
    if e == 2047 || e >= 1076 {
        None
    } else if e == 0 {
        Some(0)
    } else {
        let mag: int = if e == 1075 {
            sig
        } else {
            sig / (two_pow((1075 - e) as nat) as int)
        };
        Some(if bits_negative(b) {
            -mag
        } else {
            mag
        })
    }
}

/// The value of a finite `b` whose magnitude is below `2^53` and whose
/// fractional part is zero; `None` otherwise.
pub open spec fn integral_below_2_53(b: u64) -> Option<int> {
    let e = bits_exponent(b);
    let sig = bits_fraction(b) + hidden_bit();
    if e == 2047 || e >= 1076 {
        None
    } else if e == 0 {
        if bits_fraction(b) == 0 {
            Some(0)
        } else {
            None
        }
    } else if e == 1075 {
        Some(
            if bits_negative(b) {
                -sig
            } else {
                sig
            },
        )
    } else if sig % (two_pow((1075 - e) as nat) as int) == 0 {
        let mag = sig / (two_pow((1075 - e) as nat) as int);
        Some(if bits_negative(b) {
            -mag
        } else {
            mag
        })
    } else {
        None
    }
}

proof fn lemma_two_pow_grows(a: nat, b: nat)
    requires
        a <= b,
    ensures
        two_pow(a) <= two_pow(b),
        two_pow(a) >= 1,
    decreases b,
{
    if a < b {
        lemma_two_pow_grows(a, (b - 1) as nat);
    } else if a > 0 {
        lemma_two_pow_grows((a - 1) as nat, (a - 1) as nat);
    }
}

proof fn lemma_two_pow_values()
    ensures
        two_pow(53) == 0x20_0000_0000_0000,
        two_pow(63) == 0x8000_0000_0000_0000,
{
    reveal_with_fuel(two_pow, 64);
}

fn pow2_u64(n: u64) -> (p: u64)
    requires
        n < 64,
    ensures
        p == two_pow(n as nat),
        p >= 1,
{
    proof {
        lemma_two_pow_grows(0, n as nat);
    }
    let mut p: u64 = 1;
    let mut i: u64 = 0;
    while i < n
        invariant
            i <= n < 64,
            p == two_pow(i as nat),
            p <= 0x8000_0000_0000_0000,
        decreases n - i,
    {
        proof {
            lemma_two_pow_grows((i + 1) as nat, 63);
            lemma_two_pow_values();
        }
        p = p * 2;
        i = i + 1;
    }
    p
}

fn split_bits(b: u64) -> (r: (u64, u64, bool))
    ensures
        r.0 == bits_exponent(b),
        r.1 == bits_fraction(b) + hidden_bit(),
        r.2 == bits_negative(b),
        r.1 < 0x20_0000_0000_0000,
{
    let e = (b / 0x10_0000_0000_0000) % 2048;
    let sig = b % 0x10_0000_0000_0000 + 0x10_0000_0000_0000;
    (e, sig, b >= 0x8000_0000_0000_0000)
}

/// The truncated value of a finite float below `2^53` in magnitude, from its bits.
pub fn bits_trunc_below_2_53(b: u64) -> (r: Option<i64>)
    ensures
        match r {
            Some(v) => trunc_below_2_53(b) == Some(v as int),
            None => trunc_below_2_53(b) is None,
        },
{
    let (e, sig, neg) = split_bits(b);
    if e == 2047 || e >= 1076 {
        None
    } else if e == 0 {
        Some(0)
    } else {
        let mag: u64 = if e == 1075 {
            sig
        } else {
            let sh = 1075 - e;
            if sh >= 63 {
                proof {
                    lemma_two_pow_grows(53, sh as nat);
                    lemma_two_pow_values();
                    vstd::arithmetic::div_mod::lemma_basic_div_specific_divisor(
                        two_pow(sh as nat) as int,
                    );
                    assert((sig as int) / (two_pow(sh as nat) as int) == 0);
                }
                0
            } else {
                let p = pow2_u64(sh);
                let q = sig / p;
                assert(q <= sig) by (nonlinear_arith)
                    requires
                        p >= 1,
                        q == sig / p,
                ;
                q
            }
        };
        Some(if neg { -(mag as i64) } else { mag as i64 })
    }
}

/// The value of a finite, integral float below `2^53` in magnitude, from its bits.
pub fn bits_integral_below_2_53(b: u64) -> (r: Option<i64>)
    ensures
        match r {
            Some(v) => integral_below_2_53(b) == Some(v as int),
            None => integral_below_2_53(b) is None,
        },
{
    let (e, sig, neg) = split_bits(b);
    if e == 2047 || e >= 1076 {
        None
    } else if e == 0 {
        if sig == 0x10_0000_0000_0000 {
            Some(0)
        } else {
            None
        }
    } else if e == 1075 {
        Some(if neg { -(sig as i64) } else { sig as i64 })
    } else {
        let sh = 1075 - e;
        if sh >= 63 {
            proof {
                lemma_two_pow_grows(53, sh as nat);
                lemma_two_pow_values();
                vstd::arithmetic::div_mod::lemma_small_mod(sig as nat, two_pow(sh as nat));
            }
            None
        } else {
            let p = pow2_u64(sh);
            if sig % p == 0 {
                let mag = sig / p;
                assert(mag <= sig) by (nonlinear_arith)
                    requires
                        p >= 1,
                        mag == sig / p,
                ;
                Some(if neg { -(mag as i64) } else { mag as i64 })
            } else {
                None
            }
        }
    }
}

} // verus!
