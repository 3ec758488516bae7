use vstd::prelude::*;
use vstd::arithmetic::div_mod::*;
use vstd::arithmetic::power::*;

verus! {

/// `d` divides `a` over the integers.
pub open spec fn divides(d: int, a: int) -> bool {
    exists|k: int| a == #[trigger] (d * k)
}

/// Absolute value of an integer, as a natural number.
pub open spec fn nat_abs(x: int) -> nat {
    if x < 0 {
        (-x) as nat
    } else {
        x as nat
    }
}

/// Euclid's greatest common divisor, mirrored on the subtraction-free
/// remainder form: gcd(a, b) = gcd(b mod a, a), gcd(0, b) = b.
pub open spec fn gcd_s(a: nat, b: nat) -> nat
    decreases a,
{
    if a == 0 {
        b
    } else {
        gcd_s(b % a, a)
    }
}

pub proof fn lemma_divides_linear(d: int, a: int, b: int, x: int, y: int)
    requires
        divides(d, a),
        divides(d, b),
    ensures
        divides(d, x * a + y * b),
{
    let k1 = choose|k: int| a == #[trigger] (d * k);
    let k2 = choose|k: int| b == #[trigger] (d * k);
    assert(x * a + y * b == d * (x * k1 + y * k2)) by (nonlinear_arith)
        requires
            a == d * k1,
            b == d * k2;
}

/// The gcd divides both of its arguments.
pub proof fn lemma_gcd_divides(a: nat, b: nat)
    ensures
        divides(gcd_s(a, b) as int, a as int),
        divides(gcd_s(a, b) as int, b as int),
    decreases a,
{
    if a == 0 {
        assert(a as int == gcd_s(a, b) as int * 0);
        assert(b as int == gcd_s(a, b) as int * 1);
    } else {
        lemma_gcd_divides(b % a, a);
        lemma_fundamental_div_mod(b as int, a as int);
        let g = gcd_s(a, b) as int;
        let q = b as int / a as int;
        let r = (b % a) as int;
        lemma_divides_linear(g, a as int, r, q, 1);
        assert(q * (a as int) + 1 * r == b as int) by (nonlinear_arith)
            requires
                b as int == (a as int) * q + r;
    }
}

/// Any common divisor of the two arguments divides their gcd.
pub proof fn lemma_gcd_greatest(a: nat, b: nat, d: int)
    requires
        divides(d, a as int),
        divides(d, b as int),
    ensures
        divides(d, gcd_s(a, b) as int),
    decreases a,
{
    if a == 0 {
    } else {
        lemma_fundamental_div_mod(b as int, a as int);
        let q = b as int / a as int;
        lemma_divides_linear(d, b as int, a as int, 1, -q);
        assert(1 * (b as int) + (-q) * (a as int) == (b % a) as int) by (nonlinear_arith)
            requires
                b as int == (a as int) * q + (b % a) as int;
        lemma_gcd_greatest(b % a, a, d);
    }
}

pub proof fn lemma_gcd_pos(a: nat, b: nat)
    requires
        a > 0 || b > 0,
    ensures
        gcd_s(a, b) > 0,
    decreases a,
{
    if a == 0 {
    } else {
        lemma_gcd_pos(b % a, a);
    }
}

/// A positive divisor of a positive number is no larger than it.
pub proof fn lemma_divides_bound(d: int, a: int)
    requires
        divides(d, a),
        d > 0,
        a > 0,
    ensures
        d <= a,
{
    let k = choose|k: int| a == #[trigger] (d * k);
    assert(d <= a) by (nonlinear_arith)
        requires
            a == d * k,
            d > 0,
            a > 0;
}

/// A positive multiple of n that is strictly between 0 and 2n is n itself.
pub proof fn lemma_divides_middle(n: int, s: int)
    requires
        n > 0,
        0 < s < 2 * n,
        divides(n, s),
    ensures
        s == n,
{
    let k = choose|k: int| s == #[trigger] (n * k);
    assert(s == n) by (nonlinear_arith)
        requires
            s == n * k,
            n > 0,
            0 < s < 2 * n;
}

pub proof fn lemma_divides_antisym(c: int, d: int)
    requires
        c > 0,
        d > 0,
        divides(c, d),
        divides(d, c),
    ensures
        c == d,
{
    lemma_divides_bound(c, d);
    lemma_divides_bound(d, c);
}

/// Subtracting the modulus from the first argument leaves the gcd unchanged.
pub proof fn lemma_gcd_shift(s: nat, n: nat)
    requires
        n > 0,
        s >= n,
    ensures
        gcd_s((s - n) as nat, n) == gcd_s(s, n),
{
    let g1 = gcd_s((s - n) as nat, n);
    let g2 = gcd_s(s, n);
    lemma_gcd_divides((s - n) as nat, n);
    lemma_gcd_divides(s, n);
    lemma_gcd_pos((s - n) as nat, n);
    lemma_gcd_pos(s, n);
    lemma_divides_linear(g1 as int, (s - n) as int, n as int, 1, 1);
    assert(s as int == 1 * ((s - n) as int) + 1 * (n as int));
    lemma_gcd_greatest(s, n, g1 as int);
    lemma_divides_linear(g2 as int, s as int, n as int, 1, -1);
    assert((s - n) as int == 1 * (s as int) + (-1) * (n as int));
    lemma_gcd_greatest((s - n) as nat, n, g2 as int);
    lemma_divides_antisym(g1 as int, g2 as int);
}

/// Bezout coefficients for the gcd: gcd(a, b) = x*a + y*b.
pub proof fn lemma_bezout(a: nat, b: nat) -> (r: (int, int))
    ensures
        gcd_s(a, b) as int == r.0 * a + r.1 * b,
    decreases a,
{
    if a == 0 {
        let r = (0int, 1int);
        assert(gcd_s(a, b) as int == r.0 * a + r.1 * b) by (nonlinear_arith)
            requires
                gcd_s(a, b) == b,
                a == 0,
                r == (0int, 1int);
        r
    } else {
        let (x1, y1) = lemma_bezout(b % a, a);
        lemma_fundamental_div_mod(b as int, a as int);
        let q = b as int / a as int;
        assert(x1 * (((b % a) as nat) as int) + y1 * (a as int) == (y1 - x1 * q) * (a as int) + x1
            * (b as int)) by (nonlinear_arith)
            requires
                b as int == q * (a as int) + ((b % a) as nat) as int;
        (y1 - x1 * q, x1)
    }
}

/// Absolute value of a 32-bit integer, widened so that every input is in range.
pub fn abs_u32(m: i32) -> (r: u32)
    ensures
        r as int == nat_abs(m as int),
{
    if m < 0 {
        (-(m as i64)) as u32
    } else {
        m as u32
    }
}

/// Difference of two unsigned values as a signed value.
pub fn sub_u32(a: u32, b: u32) -> (r: i32)
    requires
        -0x8000_0000 <= a as int - b as int <= 0x7fff_ffff,
    ensures
        r as int == a as int - b as int,
{
    if a > b {
        (a - b) as i32
    } else {
        (-((b - a) as i64)) as i32
    }
}

/// Euclid's algorithm; the result is the (non-negative) greatest common
/// divisor of the absolute values of the inputs.
pub fn gcd(m: i32, n: i32) -> (r: i32)
    requires
        m > i32::MIN,
        n > i32::MIN,
    ensures
        r >= 0,
        r as int == gcd_s(nat_abs(m as int), nat_abs(n as int)) as int,
{
    let mut a: u64 = abs_u32(m) as u64;
    let mut b: u64 = abs_u32(n) as u64;
    while a != 0
        invariant
            a <= 0x7fff_ffff,
            b <= 0x7fff_ffff,
            gcd_s(a as nat, b as nat) == gcd_s(nat_abs(m as int), nat_abs(n as int)),
        decreases a,
    {
        let t = b % a;
        b = a;
        a = t;
    }
    b as i32
}

/// (a * b) mod n, computed without overflow through 64-bit arithmetic.
pub fn mul_mod(a: u32, b: u32, n: u32) -> (r: u32)
    requires
        n >= 1,
    ensures
        r as int == (a as int * b as int) % (n as int),
        r < n,
{
    proof {
        assert((a as int) * (b as int) < 0x1_0000_0000_0000_0000) by (nonlinear_arith)
            requires
                (a as int) < 0x1_0000_0000,
                (b as int) < 0x1_0000_0000;
        assert((a as int) * (b as int) >= 0) by (nonlinear_arith)
            requires
                (a as int) >= 0,
                (b as int) >= 0;
    }
    (((a as u64) * (b as u64)) % (n as u64)) as u32
}

/// pow(base, e) mod n by repeated modular multiplication.
pub fn pow_mod(base: u32, e: u64, n: u32) -> (r: u32)
    requires
        n >= 2,
    ensures
        r as int == pow(base as int, e as nat) % (n as int),
        r < n,
{
    let mut acc: u32 = 1;
    let mut i: u64 = 0;
    proof {
        lemma_pow0(base as int);
        lemma_small_mod(1, n as nat);
    }
    while i < e
        invariant
            n >= 2,
            i <= e,
            acc < n,
            acc as int == pow(base as int, i as nat) % (n as int),
        decreases e - i,
    {
        acc = mul_mod(acc, base, n);
        proof {
            lemma_mul_mod_noop_left(pow(base as int, i as nat), base as int, n as int);
            lemma_pow_adds(base as int, i as nat, 1);
            lemma_pow1(base as int);
            assert(pow(base as int, (i + 1) as nat) == pow(base as int, i as nat) * base);
        }
        i = i + 1;
    }
    acc
}

/// The least r with r * r >= n (the ceiling of the square root).
pub fn ceil_sqrt(n: u32) -> (r: u32)
    requires
        n >= 1,
    ensures
        1 <= r,
        (r as int - 1) * (r as int - 1) < n as int,
        n as int <= r as int * r as int,
{
    let mut r: u32 = 1;
    while (r as u64) * (r as u64) < (n as u64)
        invariant
            1 <= r <= 65536,
            (r as int) * (r as int) <= 0x1_0000_0000,
            (r as int - 1) * (r as int - 1) < n as int,
        decreases 65537 - r as int,
    {
        proof {
            assert(r < 65536) by (nonlinear_arith)
                requires
                    (r as int) * (r as int) < n as int,
                    n <= 0xffff_ffff,
                    r >= 1;
            assert((r as int + 1) * (r as int + 1) <= 0x1_0000_0000) by (nonlinear_arith)
                requires
                    r < 65536,
                    r >= 1;
        }
        r = r + 1;
    }
    r
}

} // verus!
