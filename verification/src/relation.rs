use vstd::prelude::*;

verus! {

/// One relation of the search: a cursor value x together with the
/// trial-division exponent vector of Q(x) = x^2 - n.
pub struct Relation {
    pub x: u32,
    pub exps: Vec<u8>,
}

/// A relation is well formed when its exponent vector covers the whole basis.
pub open spec fn rel_wf(r: Relation) -> bool {
    r.exps@.len() == 169
}

/// Two relations carry the same cursor and the same exponent vector.
pub open spec fn rel_matches(a: Relation, b: Relation) -> bool {
    a.x == b.x && a.exps@ == b.exps@
}

/// Two relation lists agree pointwise.
pub open spec fn rels_match(a: Seq<Relation>, b: Seq<Relation>) -> bool {
    a.len() == b.len() && forall|i: int| 0 <= i < a.len() ==> rel_matches(a[i], b[i])
}

/// The subset `s` was already recorded as yielding a trivial congruence.
pub open spec fn in_bad(bad: Seq<Vec<Relation>>, s: Seq<Relation>) -> bool {
    exists|i: int| 0 <= i < bad.len() && rels_match(#[trigger] bad[i]@, s)
}

/// Column-wise sum of the exponent vectors of a relation list, at slot j.
pub open spec fn sum_at(s: Seq<Relation>, j: int) -> int
    decreases s.len(),
{
    if s.len() == 0 {
        0
    } else {
        sum_at(s.drop_last(), j) + s.last().exps@[j]
    }
}

/// Every column sum of the list is even: the summed vector is a square
/// over the basis.
pub open spec fn all_even(s: Seq<Relation>) -> bool {
    forall|j: int| 0 <= j < 169 ==> #[trigger] sum_at(s, j) % 2 == 0
}

pub proof fn lemma_sum_at_nonneg(s: Seq<Relation>, j: int)
    ensures
        sum_at(s, j) >= 0,
    decreases s.len(),
{
    if s.len() > 0 {
        lemma_sum_at_nonneg(s.drop_last(), j);
    }
}

pub proof fn lemma_sum_at_push(s: Seq<Relation>, r: Relation, j: int)
    ensures
        sum_at(s.push(r), j) == sum_at(s, j) + r.exps@[j],
{
    assert(s.push(r).drop_last() =~= s);
}

/// Column sums only read the views, so matching lists share them.
pub proof fn lemma_sum_at_match(a: Seq<Relation>, b: Seq<Relation>, j: int)
    requires
        rels_match(a, b),
    ensures
        sum_at(a, j) == sum_at(b, j),
    decreases a.len(),
{
    if a.len() > 0 {
        assert(rel_matches(a.last(), b.last()));
        assert(rels_match(a.drop_last(), b.drop_last()));
        lemma_sum_at_match(a.drop_last(), b.drop_last(), j);
    }
}

pub proof fn lemma_rels_match_trans(a: Seq<Relation>, b: Seq<Relation>, c: Seq<Relation>)
    requires
        rels_match(a, b),
        rels_match(b, c),
    ensures
        rels_match(a, c),
{
}

pub fn clone_vec_u8(v: &Vec<u8>) -> (out: Vec<u8>)
    ensures
        out@ == v@,
{
    let mut out: Vec<u8> = Vec::new();
    let mut k: usize = 0;
    while k < v.len()
        invariant
            k <= v@.len(),
            out@ == v@.take(k as int),
        decreases v@.len() - k,
    {
        out.push(v[k]);
        proof {
            assert(out@ =~= v@.take(k as int + 1));
        }
        k = k + 1;
    }
    proof {
        assert(v@.take(v@.len() as int) =~= v@);
    }
    out
}

impl Relation {
    /// A structural copy: same cursor, same exponent vector.
    pub fn duplicate(&self) -> (r: Relation)
        ensures
            rel_matches(r, *self),
            rel_wf(*self) ==> rel_wf(r),
    {
        Relation { x: self.x, exps: clone_vec_u8(&self.exps) }
    }
}

pub fn vec_u8_eq(a: &Vec<u8>, b: &Vec<u8>) -> (r: bool)
    ensures
        r == (a@ == b@),
{
    if a.len() != b.len() {
        assert(a@ != b@);
        return false;
    }
    let mut k: usize = 0;
    while k < a.len()
        invariant
            k <= a@.len(),
            a@.len() == b@.len(),
            forall|j: int| 0 <= j < k ==> a@[j] == b@[j],
        decreases a@.len() - k,
    {
        if a[k] != b[k] {
            assert(a@ != b@);
            return false;
        }
        k = k + 1;
    }
    proof {
        assert(a@ =~= b@);
    }
    true
}

pub fn rel_eq(a: &Relation, b: &Relation) -> (r: bool)
    ensures
        r == rel_matches(*a, *b),
{
    if a.x != b.x {
        return false;
    }
    vec_u8_eq(&a.exps, &b.exps)
}

pub fn rels_eq(a: &Vec<Relation>, b: &Vec<Relation>) -> (r: bool)
    ensures
        r == rels_match(a@, b@),
{
    if a.len() != b.len() {
        return false;
    }
    let mut k: usize = 0;
    while k < a.len()
        invariant
            k <= a@.len(),
            a@.len() == b@.len(),
            forall|j: int| 0 <= j < k ==> rel_matches(a@[j], b@[j]),
        decreases a@.len() - k,
    {
        if !rel_eq(&a[k], &b[k]) {
            return false;
        }
        k = k + 1;
    }
    true
}

pub fn is_in_bad(bad: &Vec<Vec<Relation>>, s: &Vec<Relation>) -> (r: bool)
    ensures
        r == in_bad(bad@, s@),
{
    let mut k: usize = 0;
    while k < bad.len()
        invariant
            k <= bad@.len(),
            forall|i: int| 0 <= i < k ==> !rels_match(#[trigger] bad@[i]@, s@),
        decreases bad@.len() - k,
    {
        if rels_eq(&bad[k], s) {
            return true;
        }
        k = k + 1;
    }
    false
}

/// Column-wise summation of the subset's exponent vectors, one u64 per slot.
pub fn sum_exponents(s: &Vec<Relation>) -> (out: Vec<u64>)
    requires
        forall|k: int| 0 <= k < s@.len() ==> rel_wf(#[trigger] s@[k]),
        s@.len() <= 0x10_0000_0000,
    ensures
        out@.len() == 169,
        forall|j: int| 0 <= j < 169 ==> out@[j] == sum_at(s@, j),
{
    let mut out: Vec<u64> = Vec::new();
    let mut k: usize = 0;
    while k < 169
        invariant
            out@.len() == k,
            k <= 169,
            forall|j: int| 0 <= j < k ==> out@[j] == 0u64,
        decreases 169 - k,
    {
        out.push(0);
        k = k + 1;
    }
    proof {
        assert(s@.take(0) =~= Seq::<Relation>::empty());
    }
    let mut k: usize = 0;
    while k < s.len()
        invariant
            k <= s@.len(),
            s@.len() <= 0x10_0000_0000,
            forall|t: int| 0 <= t < s@.len() ==> rel_wf(#[trigger] s@[t]),
            out@.len() == 169,
            forall|j: int| 0 <= j < 169 ==> out@[j] == sum_at(s@.take(k as int), j),
            forall|j: int| 0 <= j < 169 ==> out@[j] <= 255 * k,
        decreases s@.len() - k,
    {
        let mut j: usize = 0;
        while j < 169
            invariant
                j <= 169,
                k < s@.len() <= 0x10_0000_0000,
                forall|t: int| 0 <= t < s@.len() ==> rel_wf(#[trigger] s@[t]),
                out@.len() == 169,
                forall|t: int| 0 <= t < j ==> out@[t] == sum_at(s@.take(k as int + 1), t),
                forall|t: int| j <= t < 169 ==> out@[t] == sum_at(s@.take(k as int), t),
                forall|t: int| 0 <= t < j ==> out@[t] <= 255 * (k + 1),
                forall|t: int| j <= t < 169 ==> out@[t] <= 255 * k,
            decreases 169 - j,
        {
            proof {
                assert(s@.take(k as int + 1).drop_last() =~= s@.take(k as int));
                lemma_sum_at_push(s@.take(k as int), s@[k as int], j as int);
            }
            let cur = out[j];
            out.set(j, cur + (s[k].exps[j] as u64));
            j = j + 1;
        }
        k = k + 1;
    }
    proof {
        assert(s@.take(s@.len() as int) =~= s@);
    }
    out
}

} // verus!
