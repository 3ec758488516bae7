use vstd::prelude::*;
use vstd::arithmetic::div_mod::*;
use crate::arith::{
    ceil_sqrt, divides, gcd, gcd_s, lemma_bezout, lemma_divides_bound, lemma_divides_middle,
    lemma_gcd_divides, lemma_gcd_pos, lemma_gcd_shift, nat_abs, sub_u32,
};
use crate::congruence::{build_congruence, half_recon, prod_x};
use crate::relation::{all_even, rel_matches, rel_wf, Relation};
use crate::search::{find_square_subset, good_subset, MAX_RELATIONS};
use crate::trial::{lemma_divides_iff_mod, residual_witness, trial_division};

verus! {

/// How a run can fail: an intermediate value left the machine range; the
/// input is a perfect square (its first Q value is zero and the method does
/// not apply); or one of the search ceilings was reached without a factor.
#[derive(Debug, Clone, Copy, PartialEq, Eq)]
pub enum FactorError {
    Overflow,
    PerfectSquare,
    NoFactorWithinBound,
}

/// How many trivial congruences (bad subsets) a run may record before it
/// reports that no factor was found within the bound.
pub const ROUND_LIMIT: u32 = 1000000;

/// n is the square of an integer.
pub open spec fn is_square(n: int) -> bool {
    exists|k: int| #[trigger] (k * k) == n
}

/// The relation's exponent vector is a genuine trial division of its own
/// Q value x^2 - n: the reconstructed smooth part carries a residual that no
/// basis prime divides.
pub open spec fn genuine_relation(r: Relation, n: int) -> bool {
    &&& rel_wf(r)
    &&& exists|res: int| #[trigger] residual_witness(r.x * r.x - n, r.exps@, res)
}

/// The congruence pair behind an accepted factorization: both residues are
/// reduced, distinct, and do not sum to the modulus, so neither u = v nor
/// u = -v holds mod n.
pub open spec fn nontrivial_pair(u: int, v: int, n: int) -> bool {
    &&& 0 <= u < n
    &&& 0 <= v < n
    &&& u != v
    &&& u + v != n
    &&& u % n != v % n
    &&& (u + v) % n != 0
}

/// What the factorization returns on success: two divisors of n, each
/// strictly between 0 and n, read off as gcd(u - v, n) and gcd(u + v, n)
/// for a nontrivial congruence pair (u, v) that was built from a nonempty
/// all-even relation subset whose members all carry genuine trial divisions
/// of their own Q values.
pub open spec fn factor_pair_ok(a: int, b: int, n: int) -> bool {
    &&& 1 <= a < n
    &&& 1 <= b < n
    &&& divides(a, n)
    &&& divides(b, n)
    &&& exists|s: Seq<Relation>, u: int, v: int|
        #![trigger nontrivial_pair(u, v, n), all_even(s)]
        {
            &&& s.len() >= 1
            &&& all_even(s)
            &&& forall|k: int| 0 <= k < s.len() ==> genuine_relation(#[trigger] s[k], n)
            &&& u == prod_x(s) % n
            &&& v == half_recon(s, 1) % n
            &&& nontrivial_pair(u, v, n)
            &&& a == gcd_s(nat_abs(u - v), n as nat)
            &&& b == gcd_s((u + v) as nat, n as nat)
        }
}

/// A subset selected from a list of genuine relations is itself made of
/// genuine relations: matching relations carry the same x and vector.
proof fn lemma_genuine_carries(
    rels: Seq<Relation>,
    bad: Seq<Vec<Relation>>,
    s: Seq<Relation>,
    n: int,
)
    requires
        good_subset(rels, bad, s),
        forall|t: int| 0 <= t < rels.len() ==> genuine_relation(#[trigger] rels[t], n),
    ensures
        forall|k: int| 0 <= k < s.len() ==> genuine_relation(#[trigger] s[k], n),
{
    assert forall|k: int| 0 <= k < s.len() implies genuine_relation(#[trigger] s[k], n) by {
        assert(rel_wf(s[k]));
        let t = choose|t: int| 0 <= t < rels.len() && rel_matches(s[k], rels[t]);
        assert(genuine_relation(rels[t], n));
        let res = choose|res: int|
            #[trigger] residual_witness(rels[t].x * rels[t].x - n, rels[t].exps@, res);
        assert(s[k].x == rels[t].x && s[k].exps@ == rels[t].exps@);
        assert(residual_witness(s[k].x * s[k].x - n, s[k].exps@, res));
    }
}

/// Factor correctness: whenever an accepted pair really satisfies the
/// congruence of squares u^2 = v^2 (mod n), the first extracted value
/// gcd(u - v, n) is a divisor of n strictly between 1 and n: the pair
/// splits n.
pub proof fn lemma_factor_correctness(u: int, v: int, n: int)
    requires
        n >= 2,
        nontrivial_pair(u, v, n),
        (u * u) % n == (v * v) % n,
    ensures
        1 < gcd_s(nat_abs(u - v), n as nat) < n,
        divides(gcd_s(nat_abs(u - v), n as nat) as int, n),
{
    let d = nat_abs(u - v);
    let g = gcd_s(d, n as nat);
    lemma_gcd_divides(d, n as nat);
    lemma_gcd_pos(d, n as nat);
    lemma_divides_bound(g as int, d as int);
    // n divides u^2 - v^2
    lemma_fundamental_div_mod(u * u, n);
    lemma_fundamental_div_mod(v * v, n);
    let k0 = (u * u) / n - (v * v) / n;
    assert(u * u - v * v == n * k0) by (nonlinear_arith)
        requires
            u * u == n * ((u * u) / n) + (u * u) % n,
            v * v == n * ((v * v) / n) + (v * v) % n,
            (u * u) % n == (v * v) % n,
            k0 == (u * u) / n - (v * v) / n;
    // (u - v)(u + v) = u^2 - v^2, so n divides d * s up to sign
    let s = u + v;
    let kk: int = if u >= v {
        k0
    } else {
        -k0
    };
    assert(d as int * s == n * kk) by (nonlinear_arith)
        requires
            u * u - v * v == n * k0,
            kk == (if u >= v { k0 } else { -k0 }),
            d as int == (if u >= v { u - v } else { v - u }),
            s == u + v;
    if g == 1 {
        // Bezout: 1 = x d + y n, so s = x (d s) + y n s = n (x kk + y s)
        let (x, y) = lemma_bezout(d, n as nat);
        assert(s == n * (x * kk + y * s)) by (nonlinear_arith)
            requires
                1 == x * (d as int) + y * n,
                d as int * s == n * kk;
        assert(divides(n, s));
        lemma_divides_iff_mod(n, s);
        assert(false);
    }
}

/// Q(x) = x^2 - n, when it fits a signed 32-bit value.
pub fn q_value(x: u32, n: u32) -> (r: Option<i32>)
    requires
        1 <= n <= 0x7fff_ffff,
    ensures
        r matches Some(v) ==> v as int == x as int * x as int - n as int,
        r is None ==> x as int * x as int - n as int > 0x7fff_ffff,
{
    proof {
        assert(x as int * x as int <= 0xffff_ffff * 0xffff_ffff && x as int * x as int >= 0)
            by (nonlinear_arith)
            requires
                0 <= (x as int) <= 0xffff_ffff;
    }
    let sq = (x as u64) * (x as u64);
    if sq >= n as u64 {
        let diff = sq - (n as u64);
        if diff <= 0x7fff_ffff {
            Some(diff as i32)
        } else {
            None
        }
    } else {
        let neg = (n as u64) - sq;
        Some(-(neg as i32))
    }
}

/// Kraitchik's congruence-of-squares factorization.
///
/// Walks two cursors outward from the ceiling of sqrt(n), trial-divides each
/// Q(x) = x^2 - n over the prime basis, and searches every new relation list
/// for a subset whose summed exponent vector is all even. An accepted subset
/// yields u and v; a trivial pair (u = v or u + v = n) is recorded in the
/// bad-subset set and the search resumes, a nontrivial pair yields the
/// factor pair (gcd(u - v, n), gcd(u + v, n)).
///
/// A perfect square is reported at once: its very first Q value is zero.
/// For other inputs that admit no nontrivial congruence the run ends with an
/// error: when a cursor or a Q value leaves the machine range, or when a
/// ceiling (on accumulated relations per round, or on recorded bad subsets)
/// is reached without a factor.
///
/// The classical diagnostic mode, printing each accepted square's summed
/// vector and subset, is deliberately omitted: it is human-inspection
/// output, not part of the result.
#[verifier::loop_isolation(false)]
pub fn kraitchik(to_be_factorized: u32) -> (r: Result<(i32, i32), FactorError>)
    requires
        2 <= to_be_factorized <= 0x7fff_ffff,
    ensures
        r matches Ok(f) ==> factor_pair_ok(f.0 as int, f.1 as int, to_be_factorized as int),
        (r matches Err(e) && e == FactorError::PerfectSquare) <==> is_square(to_be_factorized as int),
{
    let n = to_be_factorized;
    let ghost ni = n as int;
    let start = ceil_sqrt(n);
    proof {
        if start == 1 {
            assert(start as int * start as int == 1);
            assert(false);
        }
    }
    // a perfect square is caught at the first cursor value: ceil_sqrt is
    // exact there, so Q(start) = 0
    proof {
        assert((start as int) * (start as int) < 0x1_0000_0000_0000_0000) by (nonlinear_arith)
            requires
                0 <= (start as int) <= 0xffff_ffff;
    }
    let sq0 = (start as u64) * (start as u64);
    if sq0 == n as u64 {
        proof {
            assert((start as int) * (start as int) == ni);
            assert(is_square(ni));
        }
        return Err(FactorError::PerfectSquare);
    }
    proof {
        // no other integer can square to n either: a square root would have
        // to equal start, whose square is not n
        if is_square(ni) {
            let k = choose|k: int| #[trigger] (k * k) == ni;
            let k0: int = if k < 0 {
                -k
            } else {
                k
            };
            assert(k0 * k0 == ni && k0 >= 0) by (nonlinear_arith)
                requires
                    k * k == ni,
                    k0 == (if k < 0 { -k } else { k });
            assert(k0 >= start) by (nonlinear_arith)
                requires
                    (start as int - 1) * (start as int - 1) < ni,
                    k0 * k0 == ni,
                    k0 >= 0,
                    start as int >= 1;
            assert(k0 <= start) by (nonlinear_arith)
                requires
                    ni <= start as int * start as int,
                    k0 * k0 == ni,
                    k0 >= 0,
                    start as int >= 0;
            assert(sq0 as int == start as int * start as int);
            assert(false);
        }
    }
    let mut t_up: u32 = start;
    let mut t_down: u32 = start - 1;
    let mut bad: Vec<Vec<Relation>> = Vec::new();
    let mut rounds: u32 = 0;
    while rounds < ROUND_LIMIT
        invariant
            rounds <= ROUND_LIMIT,
        decreases ROUND_LIMIT - rounds,
    {
        let mut factor_vec: Vec<Relation> = Vec::new();
        let mut subset_opt: Option<Vec<Relation>> = None;
        #[verifier::loop_isolation(true)]
        loop
            invariant
                n == to_be_factorized,
                2 <= n <= 0x7fff_ffff,
                ni == n as int,
                !is_square(ni),
                factor_vec@.len() <= MAX_RELATIONS,
                forall|k: int| 0 <= k < factor_vec@.len() ==> rel_wf(#[trigger] factor_vec@[k]),
                forall|k: int|
                    0 <= k < factor_vec@.len() ==> genuine_relation(
                        #[trigger] factor_vec@[k],
                        ni,
                    ),
                subset_opt matches Some(s) ==> ({
                    &&& s@.len() >= 1
                    &&& s@.len() <= MAX_RELATIONS
                    &&& all_even(s@)
                    &&& forall|k: int| 0 <= k < s@.len() ==> rel_wf(#[trigger] s@[k])
                    &&& forall|k: int|
                        0 <= k < s@.len() ==> genuine_relation(#[trigger] s@[k], ni)
                }),
            ensures
                subset_opt matches Some(s) ==> ({
                    &&& s@.len() >= 1
                    &&& s@.len() <= MAX_RELATIONS
                    &&& all_even(s@)
                    &&& forall|k: int| 0 <= k < s@.len() ==> rel_wf(#[trigger] s@[k])
                    &&& forall|k: int|
                        0 <= k < s@.len() ==> genuine_relation(#[trigger] s@[k], ni)
                }),
                subset_opt is Some,
            decreases 0xffff_ffff - t_up,
        {
            let q1 = match q_value(t_up, n) {
                Some(v) => v,
                None => {
                    return Err(FactorError::Overflow);
                },
            };
            proof {
                if q1 == 0 {
                    assert((t_up as int) * (t_up as int) == ni);
                    assert(is_square(ni));
                }
            }
            if factor_vec.len() >= MAX_RELATIONS {
                return Err(FactorError::NoFactorWithinBound);
            }
            let ev = trial_division(q1);
            let rel = Relation { x: t_up, exps: ev };
            proof {
                let res = choose|res: int| #[trigger] residual_witness(q1 as int, rel.exps@, res);
                assert(rel.x as int * rel.x as int - ni == q1 as int);
                assert(residual_witness(rel.x * rel.x - ni, rel.exps@, res));
                assert(genuine_relation(rel, ni));
            }
            factor_vec.push(rel);
            if let Some(s) = find_square_subset(&factor_vec, &bad) {
                proof {
                    lemma_genuine_carries(factor_vec@, bad@, s@, ni);
                }
                subset_opt = Some(s);
                break;
            }
            let q2 = match q_value(t_down, n) {
                Some(v) => v,
                None => {
                    return Err(FactorError::Overflow);
                },
            };
            proof {
                if q2 == 0 {
                    assert((t_down as int) * (t_down as int) == ni);
                    assert(is_square(ni));
                }
            }
            if factor_vec.len() >= MAX_RELATIONS {
                return Err(FactorError::NoFactorWithinBound);
            }
            let ev = trial_division(q2);
            let rel = Relation { x: t_down, exps: ev };
            proof {
                let res = choose|res: int| #[trigger] residual_witness(q2 as int, rel.exps@, res);
                assert(rel.x as int * rel.x as int - ni == q2 as int);
                assert(residual_witness(rel.x * rel.x - ni, rel.exps@, res));
                assert(genuine_relation(rel, ni));
            }
            factor_vec.push(rel);
            if let Some(s) = find_square_subset(&factor_vec, &bad) {
                proof {
                    lemma_genuine_carries(factor_vec@, bad@, s@, ni);
                }
                subset_opt = Some(s);
                break;
            }
            if t_up == 0xffff_ffff {
                return Err(FactorError::Overflow);
            }
            t_up = t_up + 1;
            if t_down == 0 {
                return Err(FactorError::Overflow);
            }
            t_down = t_down - 1;
        }
        let subset = subset_opt.unwrap();
        let (u, v) = build_congruence(&subset, n);
        if u != v && u + v != n {
            let ghost ui = u as int;
            let ghost vi = v as int;
            let d = sub_u32(u, v);
            let a = gcd(d, n as i32);
            let s_uv = u + v;
            let b = if s_uv > 0x7fff_ffff {
                let red = s_uv - n;
                let b0 = gcd(red as i32, n as i32);
                proof {
                    lemma_gcd_shift(s_uv as nat, n as nat);
                }
                b0
            } else {
                gcd(s_uv as i32, n as i32)
            };
            proof {
                // a = gcd(|u - v|, n) is a divisor of n in [1, n)
                let du = nat_abs(ui - vi);
                assert(du >= 1);
                lemma_gcd_pos(du, n as nat);
                lemma_gcd_divides(du, n as nat);
                lemma_divides_bound(a as int, du as int);
                // b = gcd(u + v, n) is a divisor of n in [1, n)
                let si = ui + vi;
                assert(b as int == gcd_s(si as nat, n as nat) as int);
                lemma_gcd_pos(si as nat, n as nat);
                lemma_gcd_divides(si as nat, n as nat);
                lemma_divides_bound(b as int, ni);
                if b as int == ni {
                    lemma_divides_middle(ni, si);
                    assert(false);
                }
                // the pair is nontrivial in the modular sense as well
                lemma_small_mod(ui as nat, n as nat);
                lemma_small_mod(vi as nat, n as nat);
                if si < ni {
                    lemma_small_mod(si as nat, n as nat);
                } else {
                    lemma_mod_multiples_vanish(1, si - ni, ni);
                    lemma_small_mod((si - ni) as nat, n as nat);
                }
                assert(nontrivial_pair(ui, vi, ni));
                assert(a as int == gcd_s(nat_abs(ui - vi), ni as nat) as int);
                // witness: the accepted subset and the pair built from it
                assert(all_even(subset@) && ui == prod_x(subset@) % ni && vi == half_recon(
                    subset@,
                    1,
                ) % ni);
                assert(forall|k: int|
                    0 <= k < subset@.len() ==> genuine_relation(#[trigger] subset@[k], ni));
                assert(factor_pair_ok(a as int, b as int, ni));
            }
            return Ok((a, b));
        }
        bad.push(subset);
        rounds = rounds + 1;
    }
    Err(FactorError::NoFactorWithinBound)
}

} // verus!
