use vstd::prelude::*;
use vstd::arithmetic::div_mod::*;
use vstd::arithmetic::mul::*;
use vstd::arithmetic::power::*;
use vstd::arithmetic::power2::*;
use crate::arith::{abs_u32, divides, nat_abs};
use crate::basis::{lemma_basis_wf, PRIMES};

verus! {

/// Product over the basis, from slot `i` on, of PRIMES[i] raised to e[i].
/// Starting at 0 this includes the sign sentinel (-1) to the power e[0].
pub open spec fn recon_from(e: Seq<u8>, i: int) -> int
    decreases 169 - i,
{
    if i < 0 || i >= 169 {
        1
    } else {
        pow(PRIMES[i] as int, e[i] as nat) * recon_from(e, i + 1)
    }
}

/// The basis-smooth magnitude an exponent vector describes (sign slot ignored).
pub open spec fn magnitude_of(e: Seq<u8>) -> int {
    recon_from(e, 1)
}

/// The signed value an exponent vector describes.
pub open spec fn value_of(e: Seq<u8>) -> int {
    recon_from(e, 0)
}

/// `res` is what trial division left of `n`: it carries the magnitude to the
/// full absolute value and no basis prime divides it.
pub open spec fn residual_witness(n: int, e: Seq<u8>, res: int) -> bool {
    &&& res >= 1
    &&& magnitude_of(e) * res == nat_abs(n)
    &&& forall|j: int| 1 <= j < 169 ==> !divides(PRIMES[j] as int, res)
}

/// Reconstruction only reads the slots from `i` on.
proof fn lemma_recon_agrees(a: Seq<u8>, b: Seq<u8>, i: int)
    requires
        forall|j: int| i <= j < 169 ==> a[j] == b[j],
    ensures
        recon_from(a, i) == recon_from(b, i),
    decreases 169 - i,
{
    if i < 0 {
        lemma_recon_agrees(a, b, 0);
    } else if i < 169 {
        lemma_recon_agrees(a, b, i + 1);
    }
}

/// For slots past the sign sentinel the reconstruction is at least 1.
pub proof fn lemma_recon_positive(e: Seq<u8>, i: int)
    requires
        i >= 1,
    ensures
        recon_from(e, i) >= 1,
    decreases 169 - i,
{
    if i < 169 {
        lemma_basis_wf();
        lemma_recon_positive(e, i + 1);
        lemma_pow_positive(PRIMES[i] as int, e[i] as nat);
        assert(pow(PRIMES[i] as int, e[i] as nat) * recon_from(e, i + 1) >= 1)
            by (nonlinear_arith)
            requires
                pow(PRIMES[i] as int, e[i] as nat) >= 1,
                recon_from(e, i + 1) >= 1;
    }
}

/// Raising slot `i` by one multiplies the reconstruction by PRIMES[i].
proof fn lemma_recon_update(e: Seq<u8>, i: int, start: int)
    requires
        1 <= start <= i < 169,
        e.len() == 169,
        e[i] < 255,
    ensures
        recon_from(e.update(i, (e[i] + 1) as u8), start) == PRIMES[i] as int * recon_from(
            e,
            start,
        ),
    decreases i - start,
{
    let e2 = e.update(i, (e[i] + 1) as u8);
    assert(forall|j: int| 0 <= j < 169 && j != i ==> e2[j] == e[j]);
    if start == i {
        lemma_recon_agrees(e2, e, i + 1);
        lemma_pow_adds(PRIMES[i] as int, 1, e[i] as nat);
        lemma_pow1(PRIMES[i] as int);
        assert(pow(PRIMES[i] as int, e2[i] as nat) == PRIMES[i] as int * pow(
            PRIMES[i] as int,
            e[i] as nat,
        ));
        lemma_mul_is_associative(
            PRIMES[i] as int,
            pow(PRIMES[i] as int, e[i] as nat),
            recon_from(e, i + 1),
        );
    } else {
        lemma_recon_update(e, i, start + 1);
        lemma_mul_is_associative(
            pow(PRIMES[start] as int, e[start] as nat),
            PRIMES[i] as int,
            recon_from(e, start + 1),
        );
        lemma_mul_is_commutative(pow(PRIMES[start] as int, e[start] as nat), PRIMES[i] as int);
        lemma_mul_is_associative(
            PRIMES[i] as int,
            pow(PRIMES[start] as int, e[start] as nat),
            recon_from(e, start + 1),
        );
    }
}

/// A divisor of m stays a divisor of any multiple of m.
proof fn lemma_divides_scale(q: int, mp: int, p: int, m: int)
    requires
        divides(q, mp),
        m == p * mp,
    ensures
        divides(q, m),
{
    let k = choose|k: int| mp == #[trigger] (q * k);
    assert(m == q * (k * p)) by (nonlinear_arith)
        requires
            mp == q * k,
            m == p * mp;
}

/// For a positive p, divisibility coincides with a zero remainder.
pub proof fn lemma_divides_iff_mod(p: int, m: int)
    requires
        p > 0,
        m >= 0,
    ensures
        divides(p, m) <==> m % p == 0,
{
    if m % p == 0 {
        lemma_fundamental_div_mod(m, p);
        assert(m == p * (m / p));
    }
    if divides(p, m) {
        let k = choose|k: int| m == #[trigger] (p * k);
        lemma_mod_multiples_vanish(k, 0, p);
    }
}

/// Decompose an integer over the prime basis by repeated division.
///
/// The returned vector records the sign in slot 0 and, for every basis prime,
/// how often it divides the input. What the basis cannot express is left as a
/// residual: the reconstructed magnitude times that residual is exactly the
/// input's absolute value, and no basis prime divides the residual.
pub fn trial_division(number: i32) -> (r: Vec<u8>)
    requires
        number != 0,
    ensures
        r@.len() == 169,
        r@[0] == if number < 0 {
            1u8
        } else {
            0u8
        },
        magnitude_of(r@) >= 1,
        exists|res: int| residual_witness(number as int, r@, res),
        value_of(r@) == if number < 0 {
            -magnitude_of(r@)
        } else {
            magnitude_of(r@)
        },
{
    let mut r: Vec<u8> = Vec::new();
    let mut k: usize = 0;
    while k < 169
        invariant
            r@.len() == k,
            k <= 169,
            forall|j: int| 0 <= j < k ==> r@[j] == 0u8,
        decreases 169 - k,
    {
        r.push(0);
        k = k + 1;
    }
    if number < 0 {
        r.set(0, 1);
    }
    let mut m: u64 = abs_u32(number) as u64;
    let ghost m0: int = m as int;
    proof {
        lemma_basis_wf();
        lemma_recon_positive(r@, 1);
        assert(recon_from(r@, 1) == 1) by {
            lemma_recon_all_zero(r@, 1);
        }
    }
    let mut i: usize = 1;
    while i < 169
        invariant
            1 <= i <= 169,
            r@.len() == 169,
            r@[0] == if number < 0 {
                1u8
            } else {
                0u8
            },
            1 <= m as int,
            m as int <= m0,
            m0 == nat_abs(number as int),
            1 <= m0 <= 0x8000_0000,
            recon_from(r@, 1) * m as int == m0,
            forall|j: int| 1 <= j < i ==> !divides(PRIMES[j] as int, m as int),
            forall|j: int| i <= j < 169 ==> r@[j] == 0u8,
        decreases 169 - i,
    {
        proof {
            lemma_basis_wf();
        }
        let p = PRIMES[i];
        let p64 = p as u64;
        proof {
            lemma_pow0(2);
        }
        while m % p64 == 0
            invariant
                1 <= i < 169,
                r@.len() == 169,
                r@[0] == if number < 0 {
                    1u8
                } else {
                    0u8
                },
                p == PRIMES[i as int],
                2 <= p <= 997,
                p64 == p as u64,
                1 <= m as int,
                m as int <= m0,
                m0 == nat_abs(number as int),
                1 <= m0 <= 0x8000_0000,
                recon_from(r@, 1) * m as int == m0,
                m as int * pow(2, r@[i as int] as nat) <= m0,
                forall|j: int| 1 <= j < i ==> !divides(PRIMES[j] as int, m as int),
                forall|j: int| i < j < 169 ==> r@[j] == 0u8,
            decreases m,
        {
            let ghost m_old: int = m as int;
            let ghost e: nat = r@[i as int] as nat;
            proof {
                lemma_fundamental_div_mod(m as int, p as int);
                if m < p64 {
                    lemma_small_mod(m as nat, p as nat);
                }
                assert(m as int / p as int >= 1) by (nonlinear_arith)
                    requires
                        m as int == p as int * (m as int / p as int),
                        m as int >= p as int,
                        p as int >= 2;
            }
            m = m / p64;
            proof {
                assert(m_old == p as int * m as int);
                // the exponent slot stays below 255: 2^e never exceeds m0
                lemma_pow_positive(2, e);
                assert(pow(2, e) <= m_old * pow(2, e)) by (nonlinear_arith)
                    requires
                        m_old >= 1,
                        pow(2, e) >= 1;
                if e >= 32 {
                    lemma_pow_increases(2, 32, e);
                    lemma_pow2(32);
                    lemma2_to64();
                    assert(false);
                }
            }
            let cur = r[i];
            let ghost e_seq: Seq<u8> = r@;
            r.set(i, cur + 1);
            proof {
                lemma_recon_update(e_seq, i as int, 1);
                assert(recon_from(r@, 1) * m as int == m0) by (nonlinear_arith)
                    requires
                        recon_from(r@, 1) == p as int * recon_from(e_seq, 1),
                        m_old == p as int * m as int,
                        recon_from(e_seq, 1) * m_old == m0;
                lemma_pow_adds(2, e, 1);
                lemma_pow1(2);
                assert(r@[i as int] as nat == e + 1);
                assert(m as int * pow(2, (e + 1) as nat) <= m0) by (nonlinear_arith)
                    requires
                        pow(2, (e + 1) as nat) == pow(2, e) * 2,
                        m_old == p as int * m as int,
                        p as int >= 2,
                        m as int >= 1,
                        pow(2, e) >= 1,
                        m_old * pow(2, e) <= m0;
                assert(m as int <= m0) by (nonlinear_arith)
                    requires
                        m_old == p as int * m as int,
                        p as int >= 2,
                        m as int >= 1,
                        m_old <= m0;
                assert forall|j: int| 1 <= j < i implies !divides(
                    PRIMES[j] as int,
                    m as int,
                ) by {
                    if divides(PRIMES[j] as int, m as int) {
                        lemma_divides_scale(PRIMES[j] as int, m as int, p as int, m_old);
                    }
                }
                assert((m as int) < m_old) by (nonlinear_arith)
                    requires
                        m_old == p as int * m as int,
                        p as int >= 2,
                        m as int >= 1;
            }
        }
        proof {
            lemma_divides_iff_mod(p as int, m as int);
        }
        i = i + 1;
    }
    proof {
        lemma_basis_wf();
        lemma_recon_positive(r@, 1);
        assert(residual_witness(number as int, r@, m as int));
        lemma_pow0(-1);
        lemma_pow1(-1);
        assert(value_of(r@) == pow(PRIMES[0] as int, r@[0] as nat) * magnitude_of(r@));
    }
    r
}

/// The smooth part read off by trial division divides the input's
/// magnitude: it is the magnitude itself exactly when the residual is 1
/// (the fully smooth case), and a strictly smaller divisor when a residual
/// remains (a prime factor fell outside the basis).
pub proof fn lemma_smooth_part_divides(n: int, e: Seq<u8>, res: int)
    requires
        n != 0,
        magnitude_of(e) >= 1,
        residual_witness(n, e, res),
    ensures
        divides(magnitude_of(e), nat_abs(n) as int),
        res == 1 ==> magnitude_of(e) == nat_abs(n),
        res > 1 ==> magnitude_of(e) < nat_abs(n),
{
    assert(nat_abs(n) as int == magnitude_of(e) * res);
    if res > 1 {
        assert(magnitude_of(e) < magnitude_of(e) * res) by (nonlinear_arith)
            requires
                magnitude_of(e) >= 1,
                res >= 2;
    }
}

/// An all-zero suffix reconstructs to 1.
proof fn lemma_recon_all_zero(e: Seq<u8>, i: int)
    requires
        forall|j: int| i <= j < 169 ==> e[j] == 0u8,
    ensures
        recon_from(e, i) == 1,
    decreases 169 - i,
{
    if 0 <= i < 169 {
        lemma_recon_all_zero(e, i + 1);
        lemma_pow0(PRIMES[i] as int);
    } else if i < 0 {
        lemma_recon_all_zero(e, 0);
    }
}

} // verus!
