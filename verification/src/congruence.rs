use vstd::prelude::*;
use vstd::arithmetic::div_mod::*;
use vstd::arithmetic::power::*;
use crate::arith::{mul_mod, pow_mod};
use crate::basis::{lemma_basis_wf, PRIMES};
use crate::relation::{
    all_even, lemma_sum_at_nonneg, lemma_sum_at_push, rel_wf, sum_at, sum_exponents, Relation,
};
use crate::trial::{recon_from, value_of};

verus! {

/// Product of the cursor values of a relation list.
pub open spec fn prod_x(s: Seq<Relation>) -> int
    decreases s.len(),
{
    if s.len() == 0 {
        1
    } else {
        prod_x(s.drop_last()) * s.last().x
    }
}

/// Product of the squared cursor values.
pub open spec fn prod_xsq(s: Seq<Relation>) -> int
    decreases s.len(),
{
    if s.len() == 0 {
        1
    } else {
        prod_xsq(s.drop_last()) * (s.last().x * s.last().x)
    }
}

/// Product of the values the exponent vectors describe.
pub open spec fn prod_val(s: Seq<Relation>) -> int
    decreases s.len(),
{
    if s.len() == 0 {
        1
    } else {
        prod_val(s.drop_last()) * value_of(s.last().exps@)
    }
}

/// Reconstruction of the column-wise exponent sums, from slot i on.
pub open spec fn recon_sum(s: Seq<Relation>, i: int) -> int
    decreases 169 - i,
{
    if i < 0 || i >= 169 {
        1
    } else {
        pow(PRIMES[i] as int, sum_at(s, i) as nat) * recon_sum(s, i + 1)
    }
}

/// Reconstruction with every summed exponent halved; slot 0 (the sign) is
/// skipped. This is the v of the congruence.
pub open spec fn half_recon(s: Seq<Relation>, i: int) -> int
    decreases 169 - i,
{
    if i < 1 || i >= 169 {
        1
    } else {
        pow(PRIMES[i] as int, (sum_at(s, i) / 2) as nat) * half_recon(s, i + 1)
    }
}

proof fn lemma_recon_sum_empty(s: Seq<Relation>, i: int)
    requires
        s.len() == 0,
    ensures
        recon_sum(s, i) == 1,
    decreases 169 - i,
{
    if 0 <= i < 169 {
        lemma_recon_sum_empty(s, i + 1);
        lemma_pow0(PRIMES[i] as int);
    } else if i < 0 {
        lemma_recon_sum_empty(s, 0);
    }
}

/// Appending a relation multiplies the summed reconstruction by that
/// relation's own reconstruction.
proof fn lemma_recon_sum_push(t: Seq<Relation>, r: Relation, i: int)
    ensures
        recon_sum(t.push(r), i) == recon_sum(t, i) * recon_from(r.exps@, i),
    decreases 169 - i,
{
    if i < 0 {
    } else if i >= 169 {
    } else {
        lemma_recon_sum_push(t, r, i + 1);
        lemma_sum_at_push(t, r, i);
        lemma_sum_at_nonneg(t, i);
        let p = PRIMES[i] as int;
        let a = pow(p, sum_at(t, i) as nat);
        let b = pow(p, r.exps@[i] as nat);
        lemma_pow_adds(p, sum_at(t, i) as nat, r.exps@[i] as nat);
        assert(sum_at(t.push(r), i) as nat == sum_at(t, i) as nat + r.exps@[i] as nat);
        assert(pow(p, sum_at(t.push(r), i) as nat) == a * b);
        let c = recon_sum(t, i + 1);
        let d = recon_from(r.exps@, i + 1);
        assert((a * b) * (c * d) == (a * c) * (b * d)) by (nonlinear_arith);
    }
}

/// The product of the relations' values is the reconstruction of their
/// summed exponent vector.
proof fn lemma_prod_val_recon(s: Seq<Relation>)
    ensures
        prod_val(s) == recon_sum(s, 0),
    decreases s.len(),
{
    if s.len() == 0 {
        lemma_recon_sum_empty(s, 0);
    } else {
        let t = s.drop_last();
        let r = s.last();
        lemma_prod_val_recon(t);
        lemma_recon_sum_push(t, r, 0);
        assert(t.push(r) =~= s);
    }
}

/// Squaring distributes over the product of cursor values.
proof fn lemma_prod_sq(s: Seq<Relation>)
    ensures
        prod_x(s) * prod_x(s) == prod_xsq(s),
    decreases s.len(),
{
    if s.len() > 0 {
        let t = s.drop_last();
        lemma_prod_sq(t);
        let p = prod_x(t);
        let x = s.last().x as int;
        assert((p * x) * (p * x) == (p * p) * (x * x)) by (nonlinear_arith);
    }
}

/// When every relation's vector reconstructs to exactly x^2 - n, the product
/// of squares and the product of reconstructed values agree mod n.
proof fn lemma_prod_congruent(s: Seq<Relation>, n: int)
    requires
        n >= 2,
        forall|k: int|
            0 <= k < s.len() ==> value_of(#[trigger] s[k].exps@) == s[k].x * s[k].x - n,
    ensures
        prod_xsq(s) % n == prod_val(s) % n,
    decreases s.len(),
{
    if s.len() > 0 {
        let t = s.drop_last();
        let r = s.last();
        assert forall|k: int| 0 <= k < t.len() implies value_of(#[trigger] t[k].exps@) == t[k].x
            * t[k].x - n by {
            assert(t[k] == s[k]);
        }
        lemma_prod_congruent(t, n);
        let a = prod_xsq(t);
        let b = prod_val(t);
        let xx = r.x as int * r.x as int;
        let vv = value_of(r.exps@);
        assert(vv == xx - n);
        lemma_mod_multiples_vanish(-1, xx, n);
        assert(n * -1 + xx == xx - n);
        assert(vv % n == xx % n);
        lemma_mul_mod_noop_general(a, xx, n);
        lemma_mul_mod_noop_general(b, vv, n);
        assert(prod_xsq(s) == a * xx);
        assert(prod_val(s) == b * vv);
    }
}

/// With all column sums even, the summed reconstruction past the sign slot
/// is the square of the half-exponent reconstruction.
proof fn lemma_even_halves(s: Seq<Relation>, i: int)
    requires
        all_even(s),
        1 <= i,
    ensures
        recon_sum(s, i) == half_recon(s, i) * half_recon(s, i),
    decreases 169 - i,
{
    if i < 169 {
        lemma_even_halves(s, i + 1);
        lemma_sum_at_nonneg(s, i);
        let e = sum_at(s, i);
        let h = e / 2;
        lemma_fundamental_div_mod(e, 2);
        assert(e == 2 * h);
        let p = PRIMES[i] as int;
        lemma_pow_adds(p, h as nat, h as nat);
        assert(pow(p, e as nat) == pow(p, h as nat) * pow(p, h as nat));
        let a = pow(p, h as nat);
        let hh = half_recon(s, i + 1);
        assert((a * a) * (hh * hh) == (a * hh) * (a * hh)) by (nonlinear_arith);
    }
}

/// (-1) raised to an even power is 1.
proof fn lemma_pow_even_one(e: nat)
    requires
        e % 2 == 0,
    ensures
        pow(-1, e) == 1,
{
    lemma_fundamental_div_mod(e as int, 2);
    assert(e == 2 * (e / 2));
    lemma_pow_multiplies(-1, 2, e / 2);
    lemma_pow1(-1);
    lemma_pow_adds(-1, 1, 1);
    assert(pow(-1int, 2) == pow(-1int, 1) * pow(-1int, 1));
    lemma1_pow(e / 2);
}

/// Congruence validity: whenever a nonempty relation subset has an all-even
/// column sum and every member's exponent vector reconstructs to exactly
/// x^2 - n, the built pair u = (product of x) mod n, v = (half-exponent
/// reconstruction) mod n satisfies u^2 = v^2 (mod n).
pub proof fn lemma_congruence_validity(s: Seq<Relation>, n: int)
    requires
        n >= 2,
        s.len() >= 1,
        forall|k: int| 0 <= k < s.len() ==> rel_wf(#[trigger] s[k]),
        forall|k: int|
            0 <= k < s.len() ==> value_of(#[trigger] s[k].exps@) == s[k].x * s[k].x - n,
        all_even(s),
    ensures
        ((prod_x(s) % n) * (prod_x(s) % n)) % n == ((half_recon(s, 1) % n) * (half_recon(s, 1)
            % n)) % n,
{
    let p = prod_x(s);
    let h = half_recon(s, 1);
    lemma_mul_mod_noop_general(p, p, n);
    lemma_prod_sq(s);
    lemma_prod_congruent(s, n);
    lemma_prod_val_recon(s);
    lemma_basis_wf();
    lemma_sum_at_nonneg(s, 0);
    lemma_pow_even_one(sum_at(s, 0) as nat);
    assert(recon_sum(s, 0) == pow(-1, sum_at(s, 0) as nat) * recon_sum(s, 1));
    lemma_even_halves(s, 1);
    lemma_mul_mod_noop_general(h, h, n);
}

/// Build the congruence candidate from an accepted subset: u is the product
/// of the cursor values, v the product of the basis primes raised to half
/// the summed exponents, both reduced mod n after every multiplication.
pub fn build_congruence(subset: &Vec<Relation>, n: u32) -> (uv: (u32, u32))
    requires
        n >= 2,
        forall|k: int| 0 <= k < subset@.len() ==> rel_wf(#[trigger] subset@[k]),
        subset@.len() <= 0x10_0000_0000,
    ensures
        uv.0 < n,
        uv.1 < n,
        uv.0 as int == prod_x(subset@) % (n as int),
        uv.1 as int == half_recon(subset@, 1) % (n as int),
{
    let mut u: u32 = 1;
    proof {
        lemma_small_mod(1, n as nat);
        assert(subset@.take(0) =~= Seq::<Relation>::empty());
    }
    let mut k: usize = 0;
    while k < subset.len()
        invariant
            k <= subset@.len(),
            n >= 2,
            u < n,
            u as int == prod_x(subset@.take(k as int)) % (n as int),
        decreases subset@.len() - k,
    {
        let ghost pk = prod_x(subset@.take(k as int));
        u = mul_mod(u, subset[k].x, n);
        proof {
            lemma_mul_mod_noop_left(pk, subset@[k as int].x as int, n as int);
            assert(subset@.take(k as int + 1).drop_last() =~= subset@.take(k as int));
            assert(prod_x(subset@.take(k as int + 1)) == pk * subset@[k as int].x);
        }
        k = k + 1;
    }
    proof {
        assert(subset@.take(subset@.len() as int) =~= subset@);
    }
    let sums = sum_exponents(subset);
    let mut v: u32 = 1;
    proof {
        lemma_small_mod(1, n as nat);
    }
    let mut i: usize = 169;
    while i > 1
        invariant
            1 <= i <= 169,
            n >= 2,
            v < n,
            sums@.len() == 169,
            forall|j: int| 0 <= j < 169 ==> sums@[j] == sum_at(subset@, j),
            v as int == half_recon(subset@, i as int) % (n as int),
        decreases i,
    {
        i = i - 1;
        proof {
            lemma_basis_wf();
            lemma_sum_at_nonneg(subset@, i as int);
        }
        let p = PRIMES[i];
        let e = sums[i];
        let hp = pow_mod(p as u32, e / 2, n);
        let ghost hh = half_recon(subset@, i as int + 1);
        v = mul_mod(hp, v, n);
        proof {
            assert((sum_at(subset@, i as int) / 2) as nat == (e / 2) as nat);
            lemma_mul_mod_noop_general(
                pow(p as int, (e / 2) as nat),
                hh,
                n as int,
            );
        }
    }
    (u, v)
}

} // verus!
