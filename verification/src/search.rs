use vstd::prelude::*;
use vstd::arithmetic::power2::*;
use itertools::Itertools;
use crate::relation::{
    all_even, in_bad, is_in_bad, lemma_rels_match_trans, lemma_sum_at_match, rel_matches, rel_wf,
    rels_match, sum_at, sum_exponents, Relation,
};

verus! {

/// The most relations a subset search will accept. The enumeration below has
/// 2^len entries, which a usize position must be able to walk on every
/// machine width, and the driver imposes this as its relation-count ceiling.
pub const MAX_RELATIONS: usize = 30;

/// The sequence of subsets that itertools' powerset enumeration yields for a
/// given index list, in its fixed enumeration order.
pub uninterp spec fn powerset_of(s: Seq<usize>) -> Seq<Seq<usize>>;

/// `t` is an order-preserving selection from `s`.
pub open spec fn is_subseq_of(t: Seq<usize>, s: Seq<usize>) -> bool
    decreases t.len() + s.len(),
{
    if t.len() == 0 {
        true
    } else if s.len() == 0 {
        false
    } else {
        (t[0] == s[0] && is_subseq_of(t.drop_first(), s.drop_first())) || is_subseq_of(
            t,
            s.drop_first(),
        )
    }
}

/// What the itertools documentation states of the whole enumeration: a
/// powerset has 2^len entries and contains every subset of its input.
pub open spec fn powerset_complete(s: Seq<usize>) -> bool {
    &&& powerset_of(s).len() == pow2(s.len())
    &&& forall|t: Seq<usize>| #[trigger] is_subseq_of(t, s) ==> powerset_of(s).contains(t)
}

/// Relies on itertools::Itertools::powerset, consumed lazily through
/// Iterator::nth: the i-th entry of the enumeration, whose order is a
/// function of the input alone. The docs state that the powerset holds all
/// 2^len subsets of the input, each made of input elements; nth past the end
/// yields nothing and nothing is materialized beyond the entry returned.
#[verifier::external_body]
fn powerset_entry(idxs: &Vec<usize>, i: usize) -> (r: Option<Vec<usize>>)
    ensures
        r matches Some(s) ==> {
            &&& i < powerset_of(idxs@).len()
            &&& s@ == powerset_of(idxs@)[i as int]
            &&& s@.len() <= idxs@.len()
            &&& forall|b: int| 0 <= b < s@.len() ==> idxs@.contains(#[trigger] s@[b])
            &&& powerset_complete(idxs@)
        },
        r is None ==> i >= powerset_of(idxs@).len() && powerset_complete(idxs@),
{
    idxs.iter().powerset().nth(i).map(|s| s.into_iter().copied().collect())
}

/// The index list 0, 1, ..., k-1 that the subset enumeration draws from.
pub open spec fn index_seq(k: int) -> Seq<usize> {
    Seq::new(k as nat, |i: int| i as usize)
}

fn index_list(k: usize) -> (v: Vec<usize>)
    ensures
        v@ == index_seq(k as int),
{
    let mut v: Vec<usize> = Vec::new();
    let mut i: usize = 0;
    while i < k
        invariant
            i <= k,
            v@.len() == i,
            forall|j: int| 0 <= j < i ==> v@[j] == j as usize,
        decreases k - i,
    {
        v.push(i);
        i = i + 1;
    }
    proof {
        assert(v@ =~= index_seq(k as int));
    }
    v
}

/// The relations an index subset picks out of the accumulated list.
pub open spec fn sel(rels: Seq<Relation>, idxs: Seq<usize>) -> Seq<Relation> {
    idxs.map_values(|i: usize| rels[i as int])
}

/// An index subset names a usable square: it is nonempty, every index is in
/// range, the selected relations have an all-even column sum, and the
/// selection was not recorded bad.
pub open spec fn acceptable(
    rels: Seq<Relation>,
    bad: Seq<Vec<Relation>>,
    idxs: Seq<usize>,
) -> bool {
    &&& idxs.len() >= 1
    &&& forall|b: int| 0 <= b < idxs.len() ==> idxs[b] < rels.len()
    &&& all_even(sel(rels, idxs))
    &&& !in_bad(bad, sel(rels, idxs))
}

/// A usable result of the subset search: a nonempty selection of the
/// accumulated relations whose summed exponent vector is all even and which
/// is not recorded in the bad-subset set.
pub open spec fn good_subset(rels: Seq<Relation>, bad: Seq<Vec<Relation>>, s: Seq<Relation>) -> bool {
    &&& s.len() >= 1
    &&& s.len() <= rels.len()
    &&& forall|k: int|
        0 <= k < s.len() ==> rel_wf(#[trigger] s[k]) && exists|t: int|
            0 <= t < rels.len() && rel_matches(s[k], rels[t])
    &&& all_even(s)
    &&& !in_bad(bad, s)
}

/// Scan the powerset of the accumulated relation list, lazily and in
/// enumeration order, for a nonempty subset whose summed exponent vector is
/// entirely even and which is not recorded in the bad-subset set. The first
/// such subset is returned as a fresh relation list; when no subset of the
/// current list qualifies, the search reports that none was found: no
/// selection of the accumulated relations is usable, and more relations must
/// be generated.
#[verifier::rlimit(100)]
#[verifier::spinoff_prover]
pub fn find_square_subset(rels: &Vec<Relation>, bad: &Vec<Vec<Relation>>) -> (found: Option<
    Vec<Relation>,
>)
    requires
        forall|k: int| 0 <= k < rels@.len() ==> rel_wf(#[trigger] rels@[k]),
        rels@.len() <= MAX_RELATIONS,
    ensures
        found matches Some(s) ==> good_subset(rels@, bad@, s@),
        found matches Some(s) ==> exists|a: int|
            {
                &&& 0 <= a < powerset_of(index_seq(rels@.len() as int)).len()
                &&& rels_match(
                    s@,
                    #[trigger] sel(rels@, powerset_of(index_seq(rels@.len() as int))[a]),
                )
                &&& acceptable(rels@, bad@, powerset_of(index_seq(rels@.len() as int))[a])
                &&& forall|t: int|
                    0 <= t < a ==> !acceptable(
                        rels@,
                        bad@,
                        #[trigger] powerset_of(index_seq(rels@.len() as int))[t],
                    )
            },
        found is None ==> forall|a: int|
            0 <= a < powerset_of(index_seq(rels@.len() as int)).len() ==> !acceptable(
                rels@,
                bad@,
                #[trigger] powerset_of(index_seq(rels@.len() as int))[a],
            ),
        found is None ==> forall|t: Seq<usize>|
            #[trigger] is_subseq_of(t, index_seq(rels@.len() as int)) ==> !acceptable(
                rels@,
                bad@,
                t,
            ),
{
    let idxs = index_list(rels.len());
    let ghost pspec = powerset_of(index_seq(rels@.len() as int));
    let mut a: usize = 0;
    loop
        invariant
            forall|k: int| 0 <= k < rels@.len() ==> rel_wf(#[trigger] rels@[k]),
            rels@.len() <= MAX_RELATIONS,
            idxs@ == index_seq(rels@.len() as int),
            pspec == powerset_of(index_seq(rels@.len() as int)),
            a as int <= pspec.len(),
            forall|t: int| 0 <= t < a ==> !acceptable(rels@, bad@, #[trigger] pspec[t]),
        decreases pspec.len() - a,
    {
        let sub = match powerset_entry(&idxs, a) {
            Some(s) => s,
            None => {
                // the whole enumeration was scanned: nothing is acceptable,
                // neither by entry nor as a subsequence of the index list
                proof {
                    assert forall|t: Seq<usize>|
                        #[trigger] is_subseq_of(t, index_seq(rels@.len() as int)) implies
                        !acceptable(rels@, bad@, t) by {
                        assert(pspec.contains(t));
                        let i = choose|i: int| 0 <= i < pspec.len() && pspec[i] == t;
                        assert(!acceptable(rels@, bad@, pspec[i]));
                    }
                }
                return None;
            },
        };
        proof {
            assert(pspec[a as int] == sub@);
            assert forall|b: int| 0 <= b < sub@.len() implies sub@[b] < rels@.len() by {
                assert(idxs@.contains(sub@[b]));
                let t = choose|t: int| 0 <= t < idxs@.len() && idxs@[t] == sub@[b];
                assert(idxs@[t] == t as usize);
            }
        }
        if sub.len() >= 1 {
            // materialize the selected relations
            let mut vals: Vec<Relation> = Vec::new();
            let mut b: usize = 0;
            while b < sub.len()
                invariant
                    b <= sub@.len(),
                    forall|k: int| 0 <= k < rels@.len() ==> rel_wf(#[trigger] rels@[k]),
                    forall|t: int| 0 <= t < sub@.len() ==> sub@[t] < rels@.len(),
                    sub@.len() <= rels@.len(),
                    vals@.len() == b,
                    forall|t: int|
                        0 <= t < b ==> rel_matches(#[trigger] vals@[t], rels@[sub@[t] as int]),
                decreases sub@.len() - b,
            {
                let idx = sub[b];
                vals.push(rels[idx].duplicate());
                b = b + 1;
            }
            proof {
                assert(rels_match(vals@, sel(rels@, sub@)));
            }
            let sums = sum_exponents(&vals);
            let mut even = true;
            let mut j: usize = 0;
            while j < 169
                invariant
                    j <= 169,
                    sums@.len() == 169,
                    forall|t: int| 0 <= t < 169 ==> sums@[t] == sum_at(vals@, t),
                    even == forall|t: int| 0 <= t < j ==> #[trigger] sum_at(vals@, t) % 2 == 0,
                decreases 169 - j,
            {
                if sums[j] % 2 != 0 {
                    even = false;
                }
                j = j + 1;
            }
            if even && !is_in_bad(bad, &vals) {
                proof {
                    assert(all_even(vals@));
                    assert forall|t: int| 0 <= t < vals@.len() implies rel_wf(
                        #[trigger] vals@[t],
                    ) && exists|u: int| 0 <= u < rels@.len() && rel_matches(vals@[t], rels@[u]) by {
                        let u0 = sub@[t] as int;
                        assert(0 <= u0 < rels@.len());
                        assert(rel_matches(vals@[t], rels@[u0]));
                        assert(rel_wf(rels@[u0]));
                        assert(vals@[t].exps@ == rels@[u0].exps@);
                        assert(rel_wf(vals@[t]));
                        assert(exists|u: int|
                            0 <= u < rels@.len() && rel_matches(vals@[t], rels@[u]));
                    }
                    assert(good_subset(rels@, bad@, vals@));
                    // the accepted entry is itself acceptable, and every
                    // earlier entry of the enumeration was rejected
                    let chosen = sel(rels@, sub@);
                    assert(rels_match(vals@, chosen));
                    assert forall|t: int| 0 <= t < 169 implies sum_at(chosen, t) == sum_at(
                        vals@,
                        t,
                    ) by {
                        lemma_sum_at_match(vals@, chosen, t);
                    }
                    assert(all_even(chosen));
                    if in_bad(bad@, chosen) {
                        let i = choose|i: int|
                            0 <= i < bad@.len() && rels_match(#[trigger] bad@[i]@, chosen);
                        assert(rels_match(chosen, vals@));
                        lemma_rels_match_trans(bad@[i]@, chosen, vals@);
                        assert(false);
                    }
                    assert(acceptable(rels@, bad@, pspec[a as int]));
                }
                return Some(vals);
            }
            proof {
                // transfer the failed checks from the materialized list to the
                // selected one: the two match pointwise
                let chosen = sel(rels@, sub@);
                assert forall|t: int| 0 <= t < 169 implies sum_at(chosen, t) == sum_at(
                    vals@,
                    t,
                ) by {
                    lemma_sum_at_match(vals@, chosen, t);
                }
                if !even {
                    let t0 = choose|t: int| 0 <= t < 169 && #[trigger] sum_at(vals@, t) % 2 != 0;
                    assert(sum_at(chosen, t0) == sum_at(vals@, t0));
                    assert(!all_even(chosen));
                } else {
                    assert(in_bad(bad@, vals@));
                    let i = choose|i: int|
                        0 <= i < bad@.len() && rels_match(#[trigger] bad@[i]@, vals@);
                    lemma_rels_match_trans(bad@[i]@, vals@, chosen);
                    assert(in_bad(bad@, chosen));
                }
                assert(!acceptable(rels@, bad@, pspec[a as int]));
            }
        } else {
            proof {
                assert(!acceptable(rels@, bad@, pspec[a as int]));
            }
        }
        proof {
            // the position fits every machine width: at most 2^30 entries
            lemma2_to64();
            if idxs@.len() < 30 {
                lemma_pow2_strictly_increases(idxs@.len(), 30);
            }
            assert(pspec.len() <= 0x4000_0000);
        }
        a = a + 1;
    }
}

} // verus!
