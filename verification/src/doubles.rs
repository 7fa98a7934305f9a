//! Numbers in the form of doubles, handled by their bits: their size, the double
//! nearest to a whole number, and seconds in milliseconds.
use vstd::prelude::*;

verus! {

/// The exponent field of a double.
pub open spec fn double_exponent(bits: u64) -> int {
    (bits as int / 0x10_0000_0000_0000) % 0x800
}

/// The fraction field of a double.
pub open spec fn double_fraction(bits: u64) -> int {
    bits as int % 0x10_0000_0000_0000
}

/// The double is a number, neither infinite nor NaN.
pub open spec fn is_finite(bits: u64) -> bool {
    double_exponent(bits) < 0x7FF
}

/// The sign bit of a double.
pub open spec fn is_negative(bits: u64) -> bool {
    bits >= 0x8000_0000_0000_0000
}

/// The size of a finite double, in units of its smallest one, two to the
/// power of -1074.
pub open spec fn magnitude(bits: u64) -> int {
    let e = double_exponent(bits);
    let f = double_fraction(bits);
    if e == 0 {
        f
    } else {
        (0x10_0000_0000_0000 + f) * vstd::arithmetic::power2::pow2((e - 1) as nat)
    }
}

/// The whole number `n` in the units of `magnitude`.
pub open spec fn whole(n: int) -> int {
    n * vstd::arithmetic::power2::pow2(1074)
}

/// The double lies between 0 and 10, both included.
pub open spec fn is_pause(bits: u64) -> bool {
    is_finite(bits) && (is_negative(bits) ==> magnitude(bits) == 0) && magnitude(bits) <= whole(10)
}

/// The double lies between -1 and 1, both included.
pub open spec fn is_speed(bits: u64) -> bool {
    is_finite(bits) && magnitude(bits) <= whole(1)
}

/// Doubles of one sign are ordered like their bit patterns: those up to the
/// double of exponent field `e` and fraction field `f` are of that size at most.
proof fn lemma_magnitude_order(bits: u64, e: int, f: int)
    requires
        0 < e < 0x7FF,
        0 <= f < 0x10_0000_0000_0000,
    ensures
        ({
            let limit = (0x10_0000_0000_0000 + f) * vstd::arithmetic::power2::pow2((e - 1) as nat);
            let low = bits as int % 0x8000_0000_0000_0000;
            low <= e * 0x10_0000_0000_0000 + f <==> is_finite(bits) && magnitude(bits) <= limit
        }),
{
    let be = double_exponent(bits);
    let bf = double_fraction(bits);
    let low = bits as int % 0x8000_0000_0000_0000;
    assert(low == be * 0x10_0000_0000_0000 + bf);
    let p = vstd::arithmetic::power2::pow2((e - 1) as nat) as int;
    vstd::arithmetic::power2::lemma_pow2_pos((e - 1) as nat);
    if be == 0 {
        assert((0x10_0000_0000_0000 + f) * p >= 0x10_0000_0000_0000) by (nonlinear_arith)
            requires
                p >= 1,
                f >= 0,
        ;
    } else if be < e {
        let q = vstd::arithmetic::power2::pow2((be - 1) as nat) as int;
        let d = vstd::arithmetic::power2::pow2((e - be) as nat) as int;
        vstd::arithmetic::power2::lemma_pow2_pos((be - 1) as nat);
        vstd::arithmetic::power2::lemma_pow2_pos((e - be - 1) as nat);
        vstd::arithmetic::power2::lemma_pow2_adds((be - 1) as nat, (e - be) as nat);
        vstd::arithmetic::power2::lemma_pow2_unfold((e - be) as nat);
        assert((0x10_0000_0000_0000 + bf) * q <= (0x10_0000_0000_0000 + f) * p) by (nonlinear_arith)
            requires
                p == q * d,
                d >= 2,
                q >= 1,
                0 <= bf < 0x10_0000_0000_0000,
                f >= 0,
        ;
    } else if be > e {
        let q = vstd::arithmetic::power2::pow2((be - 1) as nat) as int;
        let d = vstd::arithmetic::power2::pow2((be - e) as nat) as int;
        vstd::arithmetic::power2::lemma_pow2_pos((be - e - 1) as nat);
        vstd::arithmetic::power2::lemma_pow2_adds((e - 1) as nat, (be - e) as nat);
        vstd::arithmetic::power2::lemma_pow2_unfold((be - e) as nat);
        assert((0x10_0000_0000_0000 + bf) * q > (0x10_0000_0000_0000 + f) * p) by (nonlinear_arith)
            requires
                q == p * d,
                d >= 2,
                p >= 1,
                0 <= f < 0x10_0000_0000_0000,
                bf >= 0,
        ;
    } else {
        assert(bf <= f ==> (0x10_0000_0000_0000 + bf) * p <= (0x10_0000_0000_0000 + f) * p)
            by (nonlinear_arith)
            requires
                p >= 1,
        ;
        assert(bf > f ==> (0x10_0000_0000_0000 + bf) * p > (0x10_0000_0000_0000 + f) * p)
            by (nonlinear_arith)
            requires
                p >= 1,
        ;
    }
}

/// The doubles between 0 and 10 are those up to that of ten, and the negative
/// zero.
proof fn lemma_pause_bits(bits: u64)
    ensures
        is_pause(bits) <==> bits <= 0x4024_0000_0000_0000 || bits == 0x8000_0000_0000_0000,
{
    lemma_magnitude_order(bits, 0x402, 0x4_0000_0000_0000);
    lemma_ten();
    if is_negative(bits) {
        lemma_zero(bits);
    }
}

/// Whether the double lies between 0 and 10.
pub fn pause_in_range(bits: u64) -> (r: bool)
    ensures
        r == is_pause(bits),
{
    proof {
        lemma_pause_bits(bits);
    }
    bits <= 0x4024_0000_0000_0000 || bits == 0x8000_0000_0000_0000
}

/// Ten, in the units of `magnitude`, is the double with these fields.
proof fn lemma_ten()
    ensures
        (0x10_0000_0000_0000 + 0x4_0000_0000_0000) * vstd::arithmetic::power2::pow2(0x401) == whole(
            10,
        ),
{
    vstd::arithmetic::power2::lemma_pow2_adds(0x401, 49);
    vstd::arithmetic::power2::lemma2_to64();
    vstd::arithmetic::power2::lemma2_to64_rest();
    assert(vstd::arithmetic::power2::pow2(49) == 0x2_0000_0000_0000);
    let p = vstd::arithmetic::power2::pow2(0x401) as int;
    assert((0x10_0000_0000_0000 + 0x4_0000_0000_0000) * p == 10 * (p * 0x2_0000_0000_0000))
        by (nonlinear_arith);
}

/// One, in the units of `magnitude`, is the double with these fields.
proof fn lemma_one()
    ensures
        0x10_0000_0000_0000 * vstd::arithmetic::power2::pow2(0x3FE) == whole(1),
{
    vstd::arithmetic::power2::lemma_pow2_adds(0x3FE, 52);
    vstd::arithmetic::power2::lemma2_to64();
    vstd::arithmetic::power2::lemma2_to64_rest();
    assert(vstd::arithmetic::power2::pow2(52) == 0x10_0000_0000_0000);
    let p = vstd::arithmetic::power2::pow2(0x3FE) as int;
    assert(0x10_0000_0000_0000 * p == 1 * (p * 0x10_0000_0000_0000)) by (nonlinear_arith);
}

/// A negative double of no size is the one whose other bits are all clear.
proof fn lemma_zero(bits: u64)
    requires
        is_negative(bits),
    ensures
        magnitude(bits) == 0 <==> bits == 0x8000_0000_0000_0000,
{
    let e = double_exponent(bits);
    let f = double_fraction(bits);
    assert(bits as int == 0x8000_0000_0000_0000 + e * 0x10_0000_0000_0000 + f);
    if e > 0 {
        let p = vstd::arithmetic::power2::pow2((e - 1) as nat) as int;
        vstd::arithmetic::power2::lemma_pow2_pos((e - 1) as nat);
        assert((0x10_0000_0000_0000 + f) * p > 0) by (nonlinear_arith)
            requires
                p >= 1,
                f >= 0,
        ;
    }
}

/// Whether the double lies between -1 and 1.
pub fn speed_in_range(bits: u64) -> (r: bool)
    ensures
        r == is_speed(bits),
{
    proof {
        lemma_magnitude_order(bits, 0x3FF, 0);
        lemma_one();
    }
    bits <= 0x3FF0_0000_0000_0000 || (0x8000_0000_0000_0000 <= bits && bits
        <= 0xBFF0_0000_0000_0000)
}

/// `n / d` to the nearest integer; where two are as near, the even one.
pub open spec fn half_even(n: nat, d: nat) -> nat {
    let q = n / d;
    let r = n % d;
    if 2 * r < d || (2 * r == d && q % 2 == 0) {
        q
    } else {
        q + 1
    }
}

/// How far apart the doubles are around `n`, where that is at least `u`.
pub open spec fn double_spacing(n: nat, u: nat) -> nat
    decreases n - u,
    when u > 0
{
    if n < 0x20_0000_0000_0000 * u {
        u
    } else {
        double_spacing(n, 2 * u)
    }
}

/// The double nearest to `n`; where two are as near, the even one.
pub open spec fn nearest_double(n: nat) -> nat {
    half_even(n, double_spacing(n, 1)) * double_spacing(n, 1)
}

/// Divides to the nearest integer.
pub fn divide_half_even(n: u128, d: u128) -> (r: u128)
    requires
        0 < d <= 0x10_0000,
        n <= 0x1_0000_0000_0000_0000,
    ensures
        r == half_even(n as nat, d as nat),
        r <= n / d + 1,
{
    let q: u128 = n / d;
    let rest: u128 = n % d;
    assert(q <= n) by (nonlinear_arith)
        requires
            q == n / d,
            d > 0,
    ;
    if 2 * rest < d || (2 * rest == d && q % 2 == 0) {
        q
    } else {
        q + 1
    }
}

/// Finds the double nearest to a whole number.
pub fn to_nearest_double(n: u64) -> (r: u128)
    ensures
        r == nearest_double(n as nat),
        r <= 0x1_0000_0000_0000_0000,
{
    let mut u: u128 = 1;
    let wide: u128 = n as u128;
    while wide >= 0x20_0000_0000_0000 * u
        invariant
            is_spacing(u as nat),
            wide == n,
            double_spacing(n as nat, 1) == double_spacing(n as nat, u as nat),
        decreases 0x1000 - u,
    {
        u = 2 * u;
    }
    let q: u128 = divide_half_even(wide, u);
    proof {
        lemma_rounding(wide as nat, u as nat);
    }
    q * u
}

/// One of the distances between doubles below the sixty-fourth power of two.
spec fn is_spacing(u: nat) -> bool {
    u == 1 || u == 2 || u == 4 || u == 8 || u == 0x10 || u == 0x20 || u == 0x40 || u == 0x80 || u
        == 0x100 || u == 0x200 || u == 0x400 || u == 0x800
}

proof fn lemma_rounding(n: nat, u: nat)
    requires
        is_spacing(u),
        n < 0x1_0000_0000_0000_0000,
    ensures
        half_even(n, u) * u <= 0x1_0000_0000_0000_0000,
{
    let m: nat = 0x1_0000_0000_0000_0000nat / u;
    assert(m * u == 0x1_0000_0000_0000_0000nat) by (nonlinear_arith)
        requires
            u == 1 || u == 2 || u == 4 || u == 8 || u == 0x10 || u == 0x20 || u == 0x40 || u == 0x80
                || u == 0x100 || u == 0x200 || u == 0x400 || u == 0x800,
            m == 0x1_0000_0000_0000_0000nat / u,
    ;
    let q = n / u;
    assert(q < m) by (nonlinear_arith)
        requires
            q == n / u,
            u > 0,
            n < m * u,
    ;
    let h = half_even(n, u);
    assert(h * u <= m * u) by (nonlinear_arith)
        requires
            h <= m,
            u > 0,
    ;
}

/// A double without its sign is this number, halved so many times.
pub open spec fn significand(bits: u64) -> nat {
    if double_exponent(bits) == 0 {
        double_fraction(bits) as nat
    } else {
        (0x10_0000_0000_0000 + double_fraction(bits)) as nat
    }
}

/// How many times the significand of a double is halved; for doubles below the
/// fifty-third power of two.
pub open spec fn halvings(bits: u64) -> nat {
    if double_exponent(bits) == 0 {
        1074
    } else {
        (1075 - double_exponent(bits)) as nat
    }
}

/// Seconds in milliseconds: a thousand times as many, as a double, and that to
/// the nearest whole number; where two are as near, the larger one.
pub open spec fn milliseconds(bits: u64) -> nat {
    let p = vstd::arithmetic::power2::pow2(halvings(bits));
    (2 * nearest_double(1000 * significand(bits)) + p) / (2 * p)
}

/// Turns the seconds of a pause into milliseconds.
pub fn seconds_to_ms(bits: u64) -> (r: u32)
    requires
        is_pause(bits),
    ensures
        r == milliseconds(bits),
{
    proof {
        lemma_pause_bits(bits);
    }
    let e: u64 = (bits / 0x10_0000_0000_0000) % 0x800;
    let f: u64 = bits % 0x10_0000_0000_0000;
    assert(e <= 0x402);
    let m: u64 = if e == 0 {
        f
    } else {
        0x10_0000_0000_0000 + f
    };
    let k: u64 = if e == 0 {
        1074
    } else {
        1075 - e
    };
    assert(m == significand(bits) && k == halvings(bits));
    let t: u128 = to_nearest_double(1000 * m);
    if k >= 67 {
        proof {
            vstd::arithmetic::power2::lemma2_to64();
            vstd::arithmetic::power2::lemma_pow2_adds(64, 2);
            vstd::arithmetic::power2::lemma_pow2_strictly_increases(66, k as nat);
            let p = vstd::arithmetic::power2::pow2(k as nat) as int;
            assert(vstd::arithmetic::power2::pow2(66) == 0x4_0000_0000_0000_0000);
            assert((2 * t + p) / (2 * p) == 0) by (nonlinear_arith)
                requires
                    0 <= 2 * t < p,
            ;
        }
        return 0;
    }
    let mut p: u128 = 1;
    let mut i: u64 = 0;
    proof {
        vstd::arithmetic::power2::lemma2_to64();
        vstd::arithmetic::power2::lemma2_to64_rest();
        vstd::arithmetic::power2::lemma_pow2_adds(64, 2);
    }
    assert(vstd::arithmetic::power2::pow2(66) == 0x4_0000_0000_0000_0000);
    while i < k
        invariant
            i <= k < 67,
            p == vstd::arithmetic::power2::pow2(i as nat),
            p <= 0x4_0000_0000_0000_0000,
            vstd::arithmetic::power2::pow2(66) == 0x4_0000_0000_0000_0000,
        decreases k - i,
    {
        proof {
            vstd::arithmetic::power2::lemma_pow2_unfold((i + 1) as nat);
            if i + 1 < 66 {
                vstd::arithmetic::power2::lemma_pow2_strictly_increases((i + 1) as nat, 66);
            }
        }
        p = 2 * p;
        i += 1;
    }
    proof {
        vstd::arithmetic::power2::lemma2_to64();
        vstd::arithmetic::power2::lemma2_to64_rest();
        if k > 49 {
            vstd::arithmetic::power2::lemma_pow2_strictly_increases(49, k as nat);
        }
        assert(p >= 0x2_0000_0000_0000);
        assert((2 * t + p) / (2 * p as int) <= 0x1_0000) by (nonlinear_arith)
            requires
                0 <= t <= 0x1_0000_0000_0000_0000,
                p >= 0x2_0000_0000_0000,
        ;
    }
    let ms: u128 = (2 * t + p) / (2 * p);
    ms as u32
}

/// A pause lies between zero and ten seconds: the doubles from zero to ten, by
/// their bits, and the negative zero.
pub proof fn pauses_last_up_to_ten_seconds(bits: u64)
    ensures
        is_pause(bits) <==> bits <= 0x4024_0000_0000_0000 || bits == 0x8000_0000_0000_0000,
{
    lemma_pause_bits(bits);
}

/// A speed lies between minus one and one, by its bits.
pub proof fn speeds_go_from_minus_one_to_one(bits: u64)
    ensures
        is_speed(bits) <==> bits <= 0x3FF0_0000_0000_0000 || 0x8000_0000_0000_0000 <= bits
            <= 0xBFF0_0000_0000_0000,
{
    lemma_magnitude_order(bits, 0x3FF, 0);
    lemma_one();
}

proof fn lemma_half_even(n: nat, u: nat)
    requires
        u > 0,
    ensures
        2 * (half_even(n, u) * u) <= 2 * n + u,
        2 * n <= 2 * (half_even(n, u) * u) + u,
{
    let q = n / u;
    let r = n % u;
    assert(n == q * u + r && r < u) by (nonlinear_arith)
        requires
            u > 0,
            q == n / u,
            r == n % u,
    ;
    assert((q + 1) * u == q * u + u) by (nonlinear_arith);
}

proof fn lemma_spacing(n: nat, u: nat)
    requires
        is_spacing(u),
        n < 0x1_0000_0000_0000_0000,
    ensures
        is_spacing(double_spacing(n, u)),
    decreases 0x1000 - u,
{
    if n >= 0x20_0000_0000_0000 * u {
        lemma_spacing(n, 2 * u);
    }
}

/// The milliseconds of a pause are as many as its seconds make up, to within one:
/// the seconds are the significand of the double, halved as often as it says.
pub proof fn milliseconds_are_those_of_the_seconds(bits: u64)
    requires
        is_pause(bits),
    ensures
        ({
            let p = vstd::arithmetic::power2::pow2(halvings(bits)) as int;
            (milliseconds(bits) - 1) * p <= 1000 * significand(bits) <= (milliseconds(bits) + 1) * p
        }),
{
    lemma_pause_bits(bits);
    let k = halvings(bits);
    let p = vstd::arithmetic::power2::pow2(k) as int;
    let n = (1000 * significand(bits)) as nat;
    vstd::arithmetic::power2::lemma2_to64();
    vstd::arithmetic::power2::lemma2_to64_rest();
    if k > 49 {
        vstd::arithmetic::power2::lemma_pow2_strictly_increases(49, k);
    }
    assert(p >= 0x2_0000_0000_0000);
    lemma_spacing(n, 1);
    let u = double_spacing(n, 1);
    lemma_half_even(n, u);
    let t = nearest_double(n) as int;
    assert(2 * t <= 2 * n + p && 2 * n <= 2 * t + p);
    let m = milliseconds(bits) as int;
    assert(m == (2 * t + p) / (2 * p));
    assert(2 * p * m <= 2 * t + p < 2 * p * m + 2 * p) by (nonlinear_arith)
        requires
            m == (2 * t + p) / (2 * p),
            p > 0,
    ;
    assert((m - 1) * p <= n <= (m + 1) * p) by (nonlinear_arith)
        requires
            2 * p * m <= 2 * t + p < 2 * p * m + 2 * p,
            2 * t <= 2 * n + p,
            2 * n <= 2 * t + p,
    ;
}

/// The milliseconds of a pause are no more than those of ten seconds, and one.
pub proof fn lemma_milliseconds_fit(bits: u64)
    requires
        is_pause(bits),
    ensures
        milliseconds(bits) <= 10_001,
{
    milliseconds_are_those_of_the_seconds(bits);
    lemma_pause_bits(bits);
    let e = double_exponent(bits);
    let k = halvings(bits);
    let p = vstd::arithmetic::power2::pow2(k) as int;
    vstd::arithmetic::power2::lemma_pow2_pos(k);
    vstd::arithmetic::power2::lemma2_to64();
    vstd::arithmetic::power2::lemma2_to64_rest();
    let sig = significand(bits) as int;
    assert(bits as int % 0x8000_0000_0000_0000 == e * 0x10_0000_0000_0000 + double_fraction(bits));
    assert(sig <= 10 * p) by {
        if e == 0x402 {
            assert(k == 49);
            assert(p == 0x2_0000_0000_0000);
        } else {
            assert(k >= 50);
            if k > 50 {
                vstd::arithmetic::power2::lemma_pow2_strictly_increases(50, k);
            }
            assert(p >= 0x4_0000_0000_0000);
        }
    }
    let m = milliseconds(bits) as int;
    assert(m <= 10_001) by (nonlinear_arith)
        requires
            (m - 1) * p <= 1000 * sig,
            sig <= 10 * p,
            p > 0,
    ;
}

proof fn lemma_spacing_above(n: nat, u: nat)
    requires
        u > 0,
    ensures
        double_spacing(n, u) > 0,
        n < 0x20_0000_0000_0000 * double_spacing(n, u),
    decreases n - u,
{
    if n >= 0x20_0000_0000_0000 * u {
        lemma_spacing_above(n, 2 * u);
    }
}

/// The double nearest to a whole number is no farther from it than half of what lies
/// between two doubles there; up to the fifty-third power of two it is that number.
pub proof fn the_nearest_double_is_near(n: nat)
    ensures
        n < 0x20_0000_0000_0000 ==> nearest_double(n) == n,
        2 * nearest_double(n) <= 2 * n + double_spacing(n, 1),
        2 * n <= 2 * nearest_double(n) + double_spacing(n, 1),
        n < 0x20_0000_0000_0000 * double_spacing(n, 1),
{
    lemma_spacing_above(n, 1);
    lemma_half_even(n, double_spacing(n, 1));
}

} // verus!
