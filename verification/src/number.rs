//! Numbers are held as the bit pattern of a double. This module gives the
//! pattern of a count, in integer arithmetic.

use vstd::arithmetic::div_mod::lemma_div_denominator;
use vstd::prelude::*;

verus! {

/// Two to the power 52: the weight of the exponent field in a double, and
/// the hidden bit of its mantissa.
pub const HIDDEN_BIT: u64 = 0x10_0000_0000_0000;

/// Two to the power `k`.
pub open spec fn two_to(k: nat) -> nat
    decreases k,
{
    if k == 0 {
        1
    } else {
        2 * two_to((k - 1) as nat)
    }
}

/// The position of the highest bit that is set: the logarithm to base two,
/// rounded down.
pub open spec fn magnitude(n: nat) -> nat
    decreases n,
{
    if n < 2 {
        0
    } else {
        1 + magnitude(n / 2)
    }
}

/// The bit pattern of the double nearest to `n`, ties going to the even
/// mantissa. Below two to the power 53 the double is `n` itself.
pub open spec fn double_of_count(n: nat) -> u64 {
    if n == 0 {
        0
    } else {
        let p = magnitude(n);
        if p <= 52 {
            ((1023 + p) * HIDDEN_BIT + n * two_to((52 - p) as nat) - HIDDEN_BIT) as u64
        } else {
            let d = two_to((p - 52) as nat);
            let q = n / d;
            let r = n % d;
            let up: nat = if 2 * r > d || (2 * r == d && q % 2 == 1) {
                1
            } else {
                0
            };
            ((1023 + p) * HIDDEN_BIT + q - HIDDEN_BIT + up) as u64
        }
    }
}

proof fn lemma_two_to_52()
    ensures
        two_to(52) == HIDDEN_BIT,
        two_to(53) == 2 * HIDDEN_BIT,
{
    reveal_with_fuel(two_to, 54);
}

/// A number between two to the power 52 and two to the power 53 has
/// magnitude 52.
proof fn lemma_magnitude_52(m: nat)
    requires
        HIDDEN_BIT <= m < 2 * HIDDEN_BIT,
    ensures
        magnitude(m) == 52,
{
    lemma_two_to_52();
    lemma_magnitude_between(m, 52);
}

proof fn lemma_magnitude_between(m: nat, k: nat)
    requires
        two_to(k) <= m < 2 * two_to(k),
    ensures
        magnitude(m) == k,
    decreases k,
{
    if k > 0 {
        lemma_magnitude_between(m / 2, (k - 1) as nat);
    }
}

/// The bit pattern of the double nearest to the count `n`.
pub fn count_bits(n: usize) -> (bits: u64)
    ensures
        bits == double_of_count(n as nat),
{
    let n64: u64 = n as u64;
    if n64 == 0 {
        return 0;
    }
    proof {
        lemma_two_to_52();
    }
    if n64 < 2 * HIDDEN_BIT {
        let mut m: u64 = n64;
        let mut k: u64 = 0;
        assert(two_to(0) == 1);
        assert(n64 * 1 == n64);
        while m < HIDDEN_BIT
            invariant
                0 < m < 2 * HIDDEN_BIT,
                k <= 52,
                m == n64 * two_to(k as nat),
                magnitude(m as nat) == magnitude(n64 as nat) + k,
                m < HIDDEN_BIT ==> k < 52,
                two_to(52) == HIDDEN_BIT,
            decreases 52 - k,
        {
            proof {
                assert(n64 * (2 * two_to(k as nat)) == 2 * (n64 * two_to(k as nat)))
                    by (nonlinear_arith);
                assert((2 * m) / 2 == m);
                if k + 1 >= 52 {
                    lemma_two_to_grows(52, (k + 1) as nat);
                    assert(n64 * two_to((k + 1) as nat) >= two_to((k + 1) as nat))
                        by (nonlinear_arith)
                        requires
                            n64 >= 1,
                    ;
                }
            }
            m = 2 * m;
            k = k + 1;
        }
        proof {
            lemma_magnitude_52(m as nat);
        }
        (1075 - k) * HIDDEN_BIT + (m - HIDDEN_BIT)
    } else {
        let mut q: u64 = n64;
        let mut d: u64 = 1;
        let mut s: u64 = 0;
        assert(n64 / 1 == n64);
        while q >= 2 * HIDDEN_BIT
            invariant
                q == n64 / d,
                d == two_to(s as nat),
                0 < d <= 2048,
                s <= 11,
                q >= 2 * HIDDEN_BIT ==> d < 2048 && s < 11,
                q >= HIDDEN_BIT,
                magnitude(n64 as nat) == magnitude(q as nat) + s,
            decreases q,
        {
            proof {
                lemma_div_denominator(n64 as int, d as int, 2);
                lemma_two_to_grows((s + 1) as nat, 11);
                assert(two_to(11) == 2048) by {
                    reveal_with_fuel(two_to, 12);
                }
                assert(q / 2 >= 2 * HIDDEN_BIT ==> 2 * d < 2048 && s + 1 < 11) by {
                    if q / 2 >= 2 * HIDDEN_BIT {
                        lemma_small_divisor(n64 as int, 2 * d, q as int / 2);
                        lemma_two_to_bound((s + 1) as nat);
                    }
                }
            }
            q = q / 2;
            d = d * 2;
            s = s + 1;
        }
        proof {
            lemma_magnitude_52(q as nat);
        }
        let r = n64 % d;
        let up: u64 = if 2 * r > d || (2 * r == d && q % 2 == 1) {
            1
        } else {
            0
        };
        (1075 + s) * HIDDEN_BIT + (q - HIDDEN_BIT) + up
    }
}

/// A divisor that leaves a quotient of at least two to the power 53 is
/// below two to the power 11.
proof fn lemma_small_divisor(n: int, d: int, q: int)
    requires
        0 <= n <= u64::MAX,
        d > 0,
        q == n / d,
        q >= 2 * HIDDEN_BIT,
    ensures
        d < 2048,
{
    assert(d * q <= n) by (nonlinear_arith)
        requires
            d > 0,
            q == n / d,
    ;
    assert(d < 2048) by (nonlinear_arith)
        requires
            d * q <= n,
            q >= 0x20_0000_0000_0000,
            n <= 0xffff_ffff_ffff_ffff,
    ;
}

/// A power of two below two to the power 11 has an exponent below 11.
proof fn lemma_two_to_bound(s: nat)
    requires
        two_to(s) < 2048,
    ensures
        s < 11,
{
    if s >= 11 {
        lemma_two_to_grows(11, s);
        reveal_with_fuel(two_to, 12);
    }
}

proof fn lemma_two_to_grows(a: nat, b: nat)
    requires
        a <= b,
    ensures
        two_to(a) <= two_to(b),
    decreases b,
{
    if a < b {
        lemma_two_to_grows(a, (b - 1) as nat);
    }
}

/// A count lies between the power of two of its magnitude and the next.
pub proof fn lemma_magnitude_bounds(n: nat)
    requires
        n >= 1,
    ensures
        two_to(magnitude(n)) <= n < 2 * two_to(magnitude(n)),
    decreases n,
{
    if n >= 2 {
        lemma_magnitude_bounds(n / 2);
    }
}

proof fn lemma_two_to_adds(a: nat, b: nat)
    ensures
        two_to(a + b) == two_to(a) * two_to(b),
    decreases a,
{
    if a == 0 {
        assert(two_to(a + b) == 1 * two_to(b));
    } else {
        lemma_two_to_adds((a - 1) as nat, b);
        assert(two_to(a + b) == 2 * two_to((a - 1 + b) as nat));
        assert(2 * (two_to((a - 1) as nat) * two_to(b)) == (2 * two_to((a - 1) as nat)) * two_to(b))
            by (nonlinear_arith);
    }
}

/// Below two to the power 53 the double of a count is the count itself:
/// with `e` the exponent field and `f` the fraction field of the pattern,
/// the mantissa `2^52 + f` is the count scaled by two to the power
/// `1075 - e`, which is the value that the pattern stands for.
pub proof fn lemma_double_of_count_exact(n: nat)
    requires
        0 < n < 2 * HIDDEN_BIT,
    ensures
        ({
            let bits = double_of_count(n);
            let e = bits as nat / HIDDEN_BIT as nat;
            let f = bits as nat % HIDDEN_BIT as nat;
            &&& 1023 <= e <= 1075
            &&& HIDDEN_BIT + f == n * two_to((1075 - e) as nat)
        }),
{
    let p = magnitude(n);
    lemma_magnitude_bounds(n);
    lemma_two_to_52();
    if p >= 53 {
        lemma_two_to_grows(53, p);
    }
    let k = (52 - p) as nat;
    lemma_two_to_adds(p, k);
    let m = n * two_to(k);
    lemma_two_to_grows(0, k);
    assert(HIDDEN_BIT <= m < 2 * HIDDEN_BIT) by (nonlinear_arith)
        requires
            two_to(p) <= n < 2 * two_to(p),
            two_to(p) * two_to(k) == HIDDEN_BIT,
            m == n * two_to(k),
            two_to(k) > 0,
    {
    }
    let raw = (1023 + p) * HIDDEN_BIT + m - HIDDEN_BIT;
    assert(raw == (1023 + p) * HIDDEN_BIT + (m - HIDDEN_BIT));
    assert(0 <= raw < 0x1_0000_0000_0000_0000);
    assert(raw / HIDDEN_BIT as int == 1023 + p && raw % HIDDEN_BIT as int == m - HIDDEN_BIT)
        by (nonlinear_arith)
        requires
            raw == (1023 + p) * HIDDEN_BIT + (m - HIDDEN_BIT),
            0 <= m - HIDDEN_BIT < HIDDEN_BIT,
            HIDDEN_BIT == 0x10_0000_0000_0000,
    {
    }
}

} // verus!
