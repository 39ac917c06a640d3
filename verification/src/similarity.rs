//! The similarity engine: exact Jaccard similarity over token sets,
//! ranked near-duplicate pairs, and connected groups of similar prompts.

use vstd::prelude::*;
use crate::text::{token_set, distinct_tokens, views_of, contains_token, copy_chars};

verus! {

broadcast use vstd::seq_lib::seq_to_set_is_finite, vstd::set_lib::lemma_set_empty_equivalency_len, vstd::seq_lib::group_to_multiset_ensures;

/// An exact rational: `num / den`. Similarity scores computed by the
/// engine always satisfy `num <= den` and `den >= 1`, so they lie in
/// [0, 1]; a threshold is any rational with a positive denominator.
#[derive(Clone, Copy, PartialEq, Eq, Structural, Debug)]
pub struct Similarity {
    pub num: usize,
    pub den: usize,
}

impl Similarity {
    /// A meaningful rational: the denominator is positive.
    pub open spec fn wf(self) -> bool {
        1 <= self.den
    }

    /// The score 1, the similarity of two identical token sets.
    pub fn one() -> (r: Similarity)
        ensures
            r == (Similarity { num: 1, den: 1 }),
    {
        Similarity { num: 1, den: 1 }
    }
}

/// `a >= b` as rationals, by cross multiplication.
pub open spec fn ratio_ge(a: Similarity, b: Similarity) -> bool {
    a.num * b.den >= b.num * a.den
}

/// Cross-multiplied comparison of two rationals; exact, with no rounding.
pub fn similarity_ge(a: Similarity, b: Similarity) -> (r: bool)
    ensures
        r == ratio_ge(a, b),
{
    let x = a.num as u128;
    let y = b.den as u128;
    let z = b.num as u128;
    let w = a.den as u128;
    proof {
        assert(x * y <= 0xffff_ffff_ffff_ffff * 0xffff_ffff_ffff_ffff) by (nonlinear_arith)
            requires
                x <= 0xffff_ffff_ffff_ffff,
                y <= 0xffff_ffff_ffff_ffff,
        ;
        assert(z * w <= 0xffff_ffff_ffff_ffff * 0xffff_ffff_ffff_ffff) by (nonlinear_arith)
            requires
                z <= 0xffff_ffff_ffff_ffff,
                w <= 0xffff_ffff_ffff_ffff,
        ;
    }
    x * y >= z * w
}

/// Any two rationals are comparable: the order used for ranking is total.
pub proof fn lemma_ratio_ge_total(a: Similarity, b: Similarity)
    ensures
        ratio_ge(a, b) || ratio_ge(b, a),
{
}

/// Numerator of the Jaccard similarity of two texts: the number of shared
/// tokens, or 1 when both token sets are empty (two blank texts are
/// maximally similar).
pub open spec fn jaccard_num(a: Seq<char>, b: Seq<char>) -> nat {
    if token_set(a).is_empty() && token_set(b).is_empty() {
        1
    } else {
        token_set(a).intersect(token_set(b)).len()
    }
}

/// Denominator of the Jaccard similarity of two texts: the number of
/// distinct tokens overall, or 1 when both token sets are empty.
pub open spec fn jaccard_den(a: Seq<char>, b: Seq<char>) -> nat {
    if token_set(a).is_empty() && token_set(b).is_empty() {
        1
    } else {
        token_set(a).union(token_set(b)).len()
    }
}

/// Jaccard similarity is symmetric in its two arguments.
pub proof fn lemma_jaccard_symmetric(a: Seq<char>, b: Seq<char>)
    ensures
        jaccard_num(a, b) == jaccard_num(b, a),
        jaccard_den(a, b) == jaccard_den(b, a),
{
    assert(token_set(a).intersect(token_set(b)) =~= token_set(b).intersect(token_set(a)));
    assert(token_set(a).union(token_set(b)) =~= token_set(b).union(token_set(a)));
}

/// Jaccard similarity always lies in [0, 1]: the denominator is positive
/// and the numerator never exceeds it.
pub proof fn lemma_jaccard_range(a: Seq<char>, b: Seq<char>)
    ensures
        1 <= jaccard_den(a, b),
        jaccard_num(a, b) <= jaccard_den(a, b),
{
    let ta = token_set(a);
    let tb = token_set(b);
    assert(ta.finite());
    assert(tb.finite());
    if !(ta.is_empty() && tb.is_empty()) {
        vstd::set_lib::lemma_len_union_ind(ta, tb);
        if !ta.is_empty() {
            assert(ta.len() != 0);
        } else {
            assert(tb.len() != 0);
        }
        assert(ta.intersect(tb).subset_of(ta.union(tb)));
        vstd::set_lib::lemma_len_intersect(ta, tb);
        vstd::set_lib::lemma_len_subset(ta.intersect(tb), ta.union(tb));
    }
}

/// The exact Jaccard similarity of two texts over their sets of distinct
/// lower-cased words: 1 when both sets are empty, otherwise the size of
/// the intersection over the size of the union.
pub fn jaccard_similarity(a: &str, b: &str) -> (r: Similarity)
    ensures
        r.num == jaccard_num(a@, b@),
        r.den == jaccard_den(a@, b@),
        r.num <= r.den,
        1 <= r.den,
{
    let ta = distinct_tokens(a);
    let tb = distinct_tokens(b);
    let ghost sa = token_set(a@);
    let ghost sb = token_set(b@);
    proof {
        lemma_jaccard_range(a@, b@);
    }
    if ta.len() == 0 && tb.len() == 0 {
        return Similarity { num: 1, den: 1 };
    }
    // The tokens of `a` that `b` also has: exactly the intersection.
    let mut ivec: Vec<Vec<char>> = Vec::new();
    let mut i: usize = 0;
    assert(views_of(ta@.take(0)) =~= Seq::<Seq<char>>::empty());
    assert(views_of(ivec@).to_set() =~= views_of(ta@.take(0)).to_set().intersect(sb));
    while i < ta.len()
        invariant
            i <= ta@.len(),
            views_of(ta@).no_duplicates(),
            views_of(ta@).to_set() == sa,
            views_of(tb@).to_set() == sb,
            views_of(ivec@).no_duplicates(),
            views_of(ivec@).to_set() == views_of(ta@.take(i as int)).to_set().intersect(sb),
        decreases ta@.len() - i,
    {
        let ghost x = ta@[i as int]@;
        let ghost prefix = views_of(ta@.take(i as int));
        assert(ta@.take(i + 1 as int) =~= ta@.take(i as int).push(ta@[i as int]));
        assert(views_of(ta@.take(i + 1 as int)) =~= prefix.push(x));
        proof {
            prefix.lemma_push_to_set_commute(x);
            assert(forall|k: int|
                0 <= k < i ==> views_of(ta@)[k] == prefix[k]);
            assert(!prefix.contains(x)) by {
                if prefix.contains(x) {
                    let k = choose|k: int| 0 <= k < prefix.len() && prefix[k] == x;
                    assert(views_of(ta@)[k] == views_of(ta@)[i as int]);
                }
            }
        }
        if contains_token(&tb, &ta[i]) {
            let w = copy_chars(&ta[i]);
            proof {
                crate::text::lemma_views_push(ivec@, w);
                views_of(ivec@).lemma_push_to_set_commute(x);
                assert(!views_of(ivec@).contains(x)) by {
                    assert(!prefix.to_set().contains(x));
                    assert(!views_of(ivec@).to_set().contains(x));
                }
                crate::text::lemma_no_dup_push(views_of(ivec@), x);
            }
            let ghost old_set = views_of(ivec@).to_set();
            ivec.push(w);
            assert(views_of(ivec@).to_set() =~= prefix.push(x).to_set().intersect(sb)) by {
                assert(sb.contains(x));
                assert(views_of(ivec@).to_set() =~= old_set.insert(x));
                assert(prefix.push(x).to_set() =~= prefix.to_set().insert(x));
                assert(old_set.insert(x) =~= prefix.to_set().insert(x).intersect(sb));
            }
        } else {
            assert(views_of(ivec@).to_set() =~= prefix.push(x).to_set().intersect(sb)) by {
                assert(!sb.contains(x));
                assert(prefix.push(x).to_set() =~= prefix.to_set().insert(x));
                assert(prefix.to_set().insert(x).intersect(sb) =~= prefix.to_set().intersect(
                    sb,
                ));
            }
        }
        i += 1;
    }
    assert(ta@.take(ta@.len() as int) =~= ta@);
    assert(views_of(ivec@).to_set() == sa.intersect(sb));
    proof {
        views_of(ivec@).unique_seq_to_set();
    }
    let num = ivec.len();
    // Everything in `a`, plus the tokens only `b` has: exactly the union.
    let mut uvec: Vec<Vec<char>> = Vec::new();
    let mut i: usize = 0;
    while i < ta.len()
        invariant
            i <= ta@.len(),
            views_of(ta@).no_duplicates(),
            views_of(uvec@) == views_of(ta@.take(i as int)),
        decreases ta@.len() - i,
    {
        let w = copy_chars(&ta[i]);
        proof {
            crate::text::lemma_views_push(uvec@, w);
        }
        uvec.push(w);
        assert(ta@.take(i + 1 as int) =~= ta@.take(i as int).push(ta@[i as int]));
        assert(views_of(uvec@) =~= views_of(ta@.take(i + 1 as int)));
        i += 1;
    }
    assert(ta@.take(ta@.len() as int) =~= ta@);
    assert(views_of(uvec@) == views_of(ta@));
    let mut j: usize = 0;
    while j < tb.len()
        invariant
            j <= tb@.len(),
            views_of(ta@).no_duplicates(),
            views_of(tb@).no_duplicates(),
            views_of(ta@).to_set() == sa,
            views_of(tb@).to_set() == sb,
            views_of(uvec@).no_duplicates(),
            views_of(uvec@).to_set() == sa.union(views_of(tb@.take(j as int)).to_set().difference(sa)),
        decreases tb@.len() - j,
    {
        let ghost x = tb@[j as int]@;
        let ghost prefix = views_of(tb@.take(j as int));
        assert(tb@.take(j + 1 as int) =~= tb@.take(j as int).push(tb@[j as int]));
        assert(views_of(tb@.take(j + 1 as int)) =~= prefix.push(x));
        proof {
            prefix.lemma_push_to_set_commute(x);
            assert(forall|k: int|
                0 <= k < j ==> views_of(tb@)[k] == prefix[k]);
            assert(!prefix.contains(x)) by {
                if prefix.contains(x) {
                    let k = choose|k: int| 0 <= k < prefix.len() && prefix[k] == x;
                    assert(views_of(tb@)[k] == views_of(tb@)[j as int]);
                }
            }
        }
        if !contains_token(&ta, &tb[j]) {
            let w = copy_chars(&tb[j]);
            proof {
                crate::text::lemma_views_push(uvec@, w);
                views_of(uvec@).lemma_push_to_set_commute(x);
            }
            let ghost old_set = views_of(uvec@).to_set();
            proof {
                assert(!old_set.contains(x)) by {
                    assert(!sa.contains(x));
                    assert(!prefix.to_set().contains(x));
                }
                assert(!views_of(uvec@).contains(x));
                crate::text::lemma_no_dup_push(views_of(uvec@), x);
            }
            uvec.push(w);
            assert(views_of(uvec@).to_set() =~= sa.union(prefix.push(x).to_set().difference(sa)))
                by {
                assert(views_of(uvec@).to_set() =~= old_set.insert(x));
                assert(prefix.push(x).to_set() =~= prefix.to_set().insert(x));
            }
        } else {
            assert(views_of(uvec@).to_set() =~= sa.union(prefix.push(x).to_set().difference(sa)))
                by {
                assert(sa.contains(x));
                assert(prefix.push(x).to_set() =~= prefix.to_set().insert(x));
            }
        }
        j += 1;
    }
    assert(tb@.take(tb@.len() as int) =~= tb@);
    assert(views_of(uvec@).to_set() =~= sa.union(sb));
    proof {
        views_of(uvec@).unique_seq_to_set();
    }
    let den = uvec.len();
    Similarity { num, den }
}

/// A pair of prompts whose similarity reached the scan threshold.
pub struct SimilarPair {
    pub id_a: i64,
    pub text_a: String,
    pub id_b: i64,
    pub text_b: String,
    pub similarity: Similarity,
}

/// Mathematical model of a [`SimilarPair`].
pub ghost struct PairModel {
    pub id_a: int,
    pub text_a: Seq<char>,
    pub id_b: int,
    pub text_b: Seq<char>,
    pub num: nat,
    pub den: nat,
}

impl View for SimilarPair {
    type V = PairModel;

    open spec fn view(&self) -> PairModel {
        PairModel {
            id_a: self.id_a as int,
            text_a: self.text_a@,
            id_b: self.id_b as int,
            text_b: self.text_b@,
            num: self.similarity.num as nat,
            den: self.similarity.den as nat,
        }
    }
}

/// The models of a list of pairs.
pub open spec fn pair_views(s: Seq<SimilarPair>) -> Seq<PairModel> {
    s.map_values(|p: SimilarPair| p@)
}

pub proof fn lemma_pair_views_push(s: Seq<SimilarPair>, p: SimilarPair)
    ensures
        pair_views(s.push(p)) == pair_views(s).push(p@),
{
    assert(pair_views(s.push(p)) =~= pair_views(s).push(p@));
}

/// The models of a prompt snapshot: ids with their texts.
pub open spec fn entry_views(ps: Seq<(i64, String)>) -> Seq<(int, Seq<char>)> {
    ps.map_values(|p: (i64, String)| (p.0 as int, p.1@))
}

/// Whether the similarity of two texts reaches the threshold.
pub open spec fn pair_qualifies(a: Seq<char>, b: Seq<char>, thr: Similarity) -> bool {
    jaccard_num(a, b) * thr.den >= thr.num * jaccard_den(a, b)
}

/// The model of the pair built from snapshot positions `i` and `j`.
pub open spec fn pair_model(ps: Seq<(int, Seq<char>)>, i: int, j: int) -> PairModel {
    PairModel {
        id_a: ps[i].0,
        text_a: ps[i].1,
        id_b: ps[j].0,
        text_b: ps[j].1,
        num: jaccard_num(ps[i].1, ps[j].1),
        den: jaccard_den(ps[i].1, ps[j].1),
    }
}

/// The qualifying pairs `(i, j)` of one row `i`, for `j` upward.
pub open spec fn qualifying_row(ps: Seq<(int, Seq<char>)>, thr: Similarity, i: int, j: int) -> Seq<
    PairModel,
>
    decreases ps.len() - j,
{
    if j < 0 || j >= ps.len() || i < 0 || i >= ps.len() {
        Seq::empty()
    } else {
        let rest = qualifying_row(ps, thr, i, j + 1);
        if pair_qualifies(ps[i].1, ps[j].1, thr) {
            seq![pair_model(ps, i, j)] + rest
        } else {
            rest
        }
    }
}

/// All qualifying pairs `(i, j)` with `i < j`, for rows `i` upward, in
/// snapshot order.
pub open spec fn qualifying_from(ps: Seq<(int, Seq<char>)>, thr: Similarity, i: int) -> Seq<
    PairModel,
>
    decreases ps.len() - i,
{
    if i < 0 || i >= ps.len() {
        Seq::empty()
    } else {
        qualifying_row(ps, thr, i, i + 1) + qualifying_from(ps, thr, i + 1)
    }
}

/// Every unordered pair of distinct snapshot entries whose similarity
/// reaches the threshold, visited once, in row order.
pub open spec fn qualifying_pairs(ps: Seq<(int, Seq<char>)>, thr: Similarity) -> Seq<PairModel> {
    qualifying_from(ps, thr, 0)
}

/// `>=` between the similarities of two pair models.
pub open spec fn pm_ge(a: PairModel, b: PairModel) -> bool {
    a.num * b.den >= b.num * a.den
}

/// Non-increasing similarity order.
pub open spec fn sorted_desc(s: Seq<PairModel>) -> bool {
    forall|i: int, j: int| 0 <= i <= j < s.len() ==> pm_ge(s[i], s[j])
}

pub proof fn lemma_pm_ge_trans(a: PairModel, b: PairModel, c: PairModel)
    requires
        1 <= a.den,
        1 <= b.den,
        1 <= c.den,
        pm_ge(a, b),
        pm_ge(b, c),
    ensures
        pm_ge(a, c),
{
    assert(a.num * c.den >= c.num * a.den) by (nonlinear_arith)
        requires
            a.num * b.den >= b.num * a.den,
            b.num * c.den >= c.num * b.den,
            1 <= a.den,
            1 <= b.den,
            1 <= c.den,
    ;
}

/// A row holds at most one pair for each later snapshot entry.
pub proof fn lemma_qualifying_row_len(ps: Seq<(int, Seq<char>)>, thr: Similarity, i: int, j: int)
    requires
        0 <= j <= ps.len(),
    ensures
        qualifying_row(ps, thr, i, j).len() <= ps.len() - j,
    decreases ps.len() - j,
{
    if j < ps.len() {
        lemma_qualifying_row_len(ps, thr, i, j + 1);
    }
}

/// At most one pair exists for each unordered pair of snapshot entries.
pub proof fn lemma_qualifying_from_len(ps: Seq<(int, Seq<char>)>, thr: Similarity, i: int)
    requires
        0 <= i <= ps.len(),
    ensures
        2 * qualifying_from(ps, thr, i).len() <= (ps.len() - i) * (ps.len() - i - 1),
    decreases ps.len() - i,
{
    if i < ps.len() {
        lemma_qualifying_row_len(ps, thr, i, i + 1);
        lemma_qualifying_from_len(ps, thr, i + 1);
        let n = ps.len() as int;
        let row = qualifying_row(ps, thr, i, i + 1).len() as int;
        let rest = qualifying_from(ps, thr, i + 1).len() as int;
        let total = qualifying_from(ps, thr, i).len() as int;
        assert(total == row + rest);
        assert(row <= n - i - 1);
        assert(2 * rest <= (n - i - 1) * (n - i - 2));
        assert(2 * total <= (n - i) * (n - i - 1)) by (nonlinear_arith)
            requires
                total == row + rest,
                row <= n - i - 1,
                2 * rest <= (n - i - 1) * (n - i - 2),
                0 <= rest,
                i < n,
        ;
        assert((ps.len() - i) * (ps.len() - i - 1) == (n - i) * (n - i - 1));
        assert(2 * qualifying_from(ps, thr, i).len() <= (ps.len() - i) * (ps.len() - i - 1));
    } else {
        assert(qualifying_from(ps, thr, i).len() == 0);
        assert(i == ps.len());
        assert((ps.len() - i) * (ps.len() - i - 1) == 0) by (nonlinear_arith)
            requires
                i == ps.len(),
        ;
        assert(2 * qualifying_from(ps, thr, i).len() <= (ps.len() - i) * (ps.len() - i - 1));
    }
}

/// Insertion sort by non-increasing similarity; an exact total order, so
/// no comparison can fail.
fn sort_pairs(v: &mut Vec<SimilarPair>)
    requires
        forall|k: int| 0 <= k < old(v)@.len() ==> 1 <= #[trigger] pair_views(old(v)@)[k].den,
    ensures
        pair_views(final(v)@).to_multiset() == pair_views(old(v)@).to_multiset(),
        sorted_desc(pair_views(final(v)@)),
        final(v)@.len() == old(v)@.len(),
{
    if v.len() <= 1 {
        return ;
    }
    let ghost orig = pair_views(old(v)@);
    let mut i: usize = 1;
    while i < v.len()
        invariant
            1 <= i <= v@.len(),
            v@.len() == old(v)@.len(),
            pair_views(v@).to_multiset() == orig.to_multiset(),
            sorted_desc(pair_views(v@).take(i as int)),
            forall|k: int| 0 <= k < v@.len() ==> 1 <= #[trigger] pair_views(v@)[k].den,
        decreases v@.len() - i,
    {
        let ghost s = pair_views(v@);
        let x_sim = v[i].similarity;
        let mut k: usize = 0;
        while k < i && similarity_ge(v[k].similarity, x_sim)
            invariant
                k <= i < v@.len(),
                pair_views(v@) == s,
                x_sim == v@[i as int].similarity,
                forall|m: int| 0 <= m < k ==> pm_ge(s[m], s[i as int]),
            decreases i - k,
        {
            k += 1;
        }
        proof {
            assert forall|p: int, q: int| 0 <= p <= q < i implies #[trigger] pm_ge(s[p], s[q]) by {
                let t0 = s.take(i as int);
                assert(pm_ge(t0[p], t0[q]));
            }
            if k < i {
                assert(!pm_ge(s[k as int], s[i as int]));
                assert(pm_ge(s[i as int], s[k as int]));
                assert forall|m: int| k <= m < i implies pm_ge(s[i as int], s[m]) by {
                    assert(pm_ge(s[k as int], s[m]));
                    lemma_pm_ge_trans(s[i as int], s[k as int], s[m]);
                }
            }
        }
        let x = v.remove(i);
        v.insert(k, x);
        proof {
            let u = pair_views(v@);
            assert(u =~= s.remove(i as int).insert(k as int, x@));
            assert(s.remove(i as int).to_multiset() == s.to_multiset().remove(s[i as int]));
            assert(u.to_multiset() == s.remove(i as int).to_multiset().insert(x@));
            assert(x@ == s[i as int]);
            assert(u.to_multiset() =~= s.to_multiset());
            assert(forall|m: int| 0 <= m < k ==> u[m] == s[m]);
            assert(u[k as int] == s[i as int]);
            assert(forall|m: int| k < m <= i ==> u[m] == s[m - 1]);
            assert(sorted_desc(u.take(i + 1 as int))) by {
                assert forall|p: int, q: int| 0 <= p <= q < i + 1 implies #[trigger] pm_ge(
                    u.take(i + 1 as int)[p],
                    u.take(i + 1 as int)[q],
                ) by {
                    if p < k && q < k {
                    } else if p < k && q == k {
                        assert(pm_ge(s[p], s[i as int]));
                    } else if p == k && q == k {
                    } else if p == k && q > k {
                        assert(pm_ge(s[i as int], s[q - 1]));
                    } else if p < k && q > k {
                        assert(pm_ge(s[p], s[q - 1]));
                    } else {
                        assert(p > k && q > k);
                        assert(pm_ge(s[p - 1], s[q - 1]));
                    }
                }
            }
        }
        i += 1;
    }
    assert(pair_views(v@).take(v@.len() as int) =~= pair_views(v@));
}

/// Every unordered pair of distinct snapshot entries whose Jaccard
/// similarity reaches the threshold, ranked by similarity, highest first.
/// The result holds at most one pair per unordered pair of entries.
pub fn find_similar_pairs(prompts: &Vec<(i64, String)>, threshold: Similarity) -> (r: Vec<
    SimilarPair,
>)
    ensures
        pair_views(r@).to_multiset() == qualifying_pairs(entry_views(prompts@), threshold)
            .to_multiset(),
        sorted_desc(pair_views(r@)),
        forall|k: int|
            0 <= k < r@.len() ==> {
                &&& 1 <= #[trigger] pair_views(r@)[k].den
                &&& pair_views(r@)[k].num <= pair_views(r@)[k].den
                &&& pair_views(r@)[k].num * threshold.den >= threshold.num * pair_views(r@)[k].den
            },
        2 * r@.len() <= prompts@.len() * (prompts@.len() - 1),
{
    let ghost psm = entry_views(prompts@);
    let n = prompts.len();
    let mut r: Vec<SimilarPair> = Vec::new();
    let mut i: usize = 0;
    assert(pair_views(r@) =~= Seq::<PairModel>::empty());
    assert(qualifying_pairs(psm, threshold) =~= pair_views(r@) + qualifying_from(
        psm,
        threshold,
        0,
    ));
    while i < n
        invariant
            n == prompts@.len(),
            psm == entry_views(prompts@),
            i <= n,
            qualifying_pairs(psm, threshold) == pair_views(r@) + qualifying_from(
                psm,
                threshold,
                i as int,
            ),
            forall|k: int| 0 <= k < r@.len() ==> 1 <= #[trigger] pair_views(r@)[k].den,
        decreases n - i,
    {
        let mut j: usize = i + 1;
        while j < n
            invariant
                n == prompts@.len(),
                psm == entry_views(prompts@),
                i < n,
                i < j <= n,
                qualifying_pairs(psm, threshold) == pair_views(r@) + qualifying_row(
                    psm,
                    threshold,
                    i as int,
                    j as int,
                ) + qualifying_from(psm, threshold, i + 1),
                forall|k: int| 0 <= k < r@.len() ==> 1 <= #[trigger] pair_views(r@)[k].den,
            decreases n - j,
        {
            let sim = jaccard_similarity(prompts[i].1.as_str(), prompts[j].1.as_str());
            if similarity_ge(sim, threshold) {
                let p = SimilarPair {
                    id_a: prompts[i].0,
                    text_a: prompts[i].1.clone(),
                    id_b: prompts[j].0,
                    text_b: prompts[j].1.clone(),
                    similarity: sim,
                };
                proof {
                    lemma_pair_views_push(r@, p);
                    assert(p@ == pair_model(psm, i as int, j as int));
                    assert(qualifying_row(psm, threshold, i as int, j as int) == seq![
                        pair_model(psm, i as int, j as int),
                    ] + qualifying_row(psm, threshold, i as int, j + 1));
                }
                let ghost r0 = pair_views(r@);
                r.push(p);
                assert(r0 + qualifying_row(psm, threshold, i as int, j as int) =~= pair_views(r@)
                    + qualifying_row(psm, threshold, i as int, j + 1));
            } else {
                assert(qualifying_row(psm, threshold, i as int, j as int) == qualifying_row(
                    psm,
                    threshold,
                    i as int,
                    j + 1,
                ));
            }
            j += 1;
        }
        assert(qualifying_row(psm, threshold, i as int, n as int) =~= Seq::<PairModel>::empty());
        assert(pair_views(r@) + qualifying_row(psm, threshold, i as int, n as int)
            + qualifying_from(psm, threshold, i + 1) =~= pair_views(r@) + qualifying_from(
            psm,
            threshold,
            i + 1,
        ));
        i += 1;
    }
    assert(qualifying_from(psm, threshold, n as int) =~= Seq::<PairModel>::empty());
    assert(pair_views(r@) =~= pair_views(r@) + qualifying_from(psm, threshold, n as int));
    assert(pair_views(r@) == qualifying_pairs(psm, threshold));
    proof {
        lemma_qualifying_from_len(psm, threshold, 0);
    }
    let ghost built = pair_views(r@);
    sort_pairs(&mut r);
    proof {
        assert(pair_views(r@).to_multiset().len() == built.to_multiset().len());
        assert forall|k: int| 0 <= k < r@.len() implies {
            &&& 1 <= #[trigger] pair_views(r@)[k].den
            &&& pair_views(r@)[k].num <= pair_views(r@)[k].den
            &&& pair_views(r@)[k].num * threshold.den >= threshold.num * pair_views(r@)[k].den
        } by {
            let x = pair_views(r@)[k];
            assert(pair_views(r@).contains(x));
            assert(pair_views(r@).to_multiset().contains(x));
            assert(built.to_multiset().contains(x));
            assert(built.contains(x));
            let m = choose|m: int| 0 <= m < built.len() && built[m] == x;
            lemma_qualifying_pairs_member(psm, threshold, m);
        }
    }
    r
}

/// Each entry of the qualifying list is the pair of some `(i, j)` with
/// `i < j`: its similarity is a Jaccard score that reaches the threshold.
pub proof fn lemma_qualifying_pairs_member(ps: Seq<(int, Seq<char>)>, thr: Similarity, m: int)
    requires
        0 <= m < qualifying_pairs(ps, thr).len(),
    ensures
        ({
            let x = qualifying_pairs(ps, thr)[m];
            &&& 1 <= x.den
            &&& x.num <= x.den
            &&& x.num * thr.den >= thr.num * x.den
        }),
{
    lemma_qualifying_from_member(ps, thr, 0, m);
}

pub proof fn lemma_qualifying_row_member(
    ps: Seq<(int, Seq<char>)>,
    thr: Similarity,
    i: int,
    j: int,
    m: int,
)
    requires
        0 <= m < qualifying_row(ps, thr, i, j).len(),
    ensures
        ({
            let x = qualifying_row(ps, thr, i, j)[m];
            &&& 1 <= x.den
            &&& x.num <= x.den
            &&& x.num * thr.den >= thr.num * x.den
        }),
    decreases ps.len() - j,
{
    if !(j < 0 || j >= ps.len() || i < 0 || i >= ps.len()) {
        if pair_qualifies(ps[i].1, ps[j].1, thr) {
            if m == 0 {
                lemma_jaccard_range(ps[i].1, ps[j].1);
            } else {
                lemma_qualifying_row_member(ps, thr, i, j + 1, m - 1);
            }
        } else {
            lemma_qualifying_row_member(ps, thr, i, j + 1, m);
        }
    }
}

/// An edge of the similarity graph at threshold `thr`, between two
/// distinct snapshot positions.
pub open spec fn edge(ps: Seq<(int, Seq<char>)>, thr: Similarity, i: int, j: int) -> bool {
    &&& 0 <= i < ps.len()
    &&& 0 <= j < ps.len()
    &&& i != j
    &&& pair_qualifies(ps[i].1, ps[j].1, thr)
}

/// Whether the snapshot entry at position `i` has at least one edge.
pub open spec fn has_edge(ps: Seq<(int, Seq<char>)>, thr: Similarity, i: int) -> bool {
    exists|j: int| edge(ps, thr, i, j)
}

/// Whether the snapshot entry carrying `id` has at least one edge; such
/// an entry is exactly one that is reachable from another entry over a
/// path of edges.
pub open spec fn id_has_edge(ps: Seq<(int, Seq<char>)>, thr: Similarity, id: int) -> bool {
    exists|i: int| 0 <= i < ps.len() && (#[trigger] ps[i]).0 == id && has_edge(ps, thr, i)
}

/// No two snapshot entries carry the same id.
pub open spec fn distinct_ids(ps: Seq<(int, Seq<char>)>) -> bool {
    forall|i: int, j: int|
        0 <= i < ps.len() && 0 <= j < ps.len() && i != j ==> (#[trigger] ps[i]).0 != (
        #[trigger] ps[j]).0
}

/// The similarity graph is undirected.
pub proof fn lemma_edge_symmetric(ps: Seq<(int, Seq<char>)>, thr: Similarity, i: int, j: int)
    ensures
        edge(ps, thr, i, j) == edge(ps, thr, j, i),
{
    if 0 <= i < ps.len() && 0 <= j < ps.len() {
        lemma_jaccard_symmetric(ps[i].1, ps[j].1);
    }
}

/// A similarity score that is the weight of some edge of the graph.
pub open spec fn sim_of_edge(ps: Seq<(int, Seq<char>)>, thr: Similarity, e: Similarity) -> bool {
    exists|i: int, j: int|
        edge(ps, thr, i, j) && e.num == jaccard_num(ps[i].1, ps[j].1) && e.den == jaccard_den(
            ps[i].1,
            ps[j].1,
        )
}

/// A group member is one of the snapshot entries, with its id and text.
pub open spec fn entry_ok(ps: Seq<(int, Seq<char>)>, e: (i64, String, Similarity)) -> bool {
    exists|i: int| 0 <= i < ps.len() && (#[trigger] ps[i]).0 == e.0 as int && ps[i].1 == e.1@
}

/// The ids of one group, in order.
pub open spec fn group_ids(g: Seq<(i64, String, Similarity)>) -> Seq<int> {
    g.map_values(|e: (i64, String, Similarity)| e.0 as int)
}

/// The ids of all groups, group by group.
pub open spec fn groups_ids(gs: Seq<Vec<(i64, String, Similarity)>>) -> Seq<int>
    decreases gs.len(),
{
    if gs.len() == 0 {
        Seq::empty()
    } else {
        groups_ids(gs.drop_last()) + group_ids(gs.last()@)
    }
}

pub proof fn lemma_groups_ids_push(
    gs: Seq<Vec<(i64, String, Similarity)>>,
    g: Vec<(i64, String, Similarity)>,
)
    ensures
        groups_ids(gs.push(g)) == groups_ids(gs) + group_ids(g@),
{
    assert(gs.push(g).drop_last() =~= gs);
    assert(gs.push(g).last() == g);
}

/// Membership in a concatenation is membership in either part.
proof fn lemma_concat_contains(a: Seq<int>, b: Seq<int>)
    ensures
        forall|x: int| #[trigger] (a + b).contains(x) == (a.contains(x) || b.contains(x)),
{
    assert forall|x: int| #[trigger] (a + b).contains(x) == (a.contains(x) || b.contains(x)) by {
        if (a + b).contains(x) {
            let m = choose|m: int| 0 <= m < (a + b).len() && (a + b)[m] == x;
            if m < a.len() {
                assert(a[m] == x);
                assert(a.contains(x));
            } else {
                assert(b[m - a.len()] == x);
                assert(b.contains(x));
            }
        }
        if a.contains(x) {
            let m = choose|m: int| 0 <= m < a.len() && a[m] == x;
            assert((a + b)[m] == x);
            assert((a + b).contains(x));
        }
        if b.contains(x) {
            let m = choose|m: int| 0 <= m < b.len() && b[m] == x;
            assert((a + b)[a.len() + m] == x);
            assert((a + b).contains(x));
        }
    }
}

/// The adjacency list of one snapshot position: its full row of edges.
spec fn row_ok(
    ps: Seq<(int, Seq<char>)>,
    thr: Similarity,
    i: int,
    row: Seq<(usize, Similarity)>,
) -> bool {
    &&& forall|k: int| 0 <= k < row.len() ==> edge(ps, thr, i, (#[trigger] row[k]).0 as int)
    &&& forall|k: int|
        0 <= k < row.len() ==> (#[trigger] row[k]).1.num == jaccard_num(
            ps[i].1,
            ps[row[k].0 as int].1,
        ) && row[k].1.den == jaccard_den(ps[i].1, ps[row[k].0 as int].1)
    &&& forall|j: int|
        0 <= j < ps.len() ==> (edge(ps, thr, i, j) <==> exists|k: int|
            0 <= k < row.len() && (#[trigger] row[k]).0 == j)
}

/// All edges out of snapshot position `i`, in ascending partner order.
fn adjacency_row(prompts: &Vec<(i64, String)>, threshold: Similarity, i: usize) -> (row: Vec<
    (usize, Similarity),
>)
    requires
        i < prompts@.len(),
    ensures
        row_ok(entry_views(prompts@), threshold, i as int, row@),
{
    let ghost psm = entry_views(prompts@);
    let n = prompts.len();
    let mut row: Vec<(usize, Similarity)> = Vec::new();
    let mut j: usize = 0;
    while j < n
        invariant
            n == prompts@.len(),
            psm == entry_views(prompts@),
            i < n,
            j <= n,
            forall|k: int| 0 <= k < row@.len() ==> edge(psm, threshold, i as int, (#[trigger] row@[k]).0 as int),
            forall|k: int|
                0 <= k < row@.len() ==> (#[trigger] row@[k]).1.num == jaccard_num(
                    psm[i as int].1,
                    psm[row@[k].0 as int].1,
                ) && row@[k].1.den == jaccard_den(psm[i as int].1, psm[row@[k].0 as int].1),
            forall|jj: int|
                0 <= jj < j ==> (edge(psm, threshold, i as int, jj) <==> exists|k: int|
                    0 <= k < row@.len() && (#[trigger] row@[k]).0 == jj),
        decreases n - j,
    {
        if j != i {
            let sim = jaccard_similarity(prompts[i].1.as_str(), prompts[j].1.as_str());
            if similarity_ge(sim, threshold) {
                let ghost row0 = row@;
                row.push((j, sim));
                assert(row@[row@.len() - 1].0 == j);
                assert(edge(psm, threshold, i as int, j as int));
                assert(forall|k: int| 0 <= k < row0.len() ==> row@[k] == row0[k]);
            } else {
                assert(!edge(psm, threshold, i as int, j as int));
            }
        } else {
            assert(!edge(psm, threshold, i as int, j as int));
        }
        j += 1;
    }
    row
}

/// How many positions the traversal has already visited.
spec fn count_true(s: Seq<bool>) -> nat
    decreases s.len(),
{
    if s.len() == 0 {
        0
    } else {
        count_true(s.drop_last()) + (if s.last() {
            1nat
        } else {
            0nat
        })
    }
}

proof fn lemma_count_true_le(s: Seq<bool>)
    ensures
        count_true(s) <= s.len(),
    decreases s.len(),
{
    if s.len() > 0 {
        lemma_count_true_le(s.drop_last());
    }
}

proof fn lemma_count_true_update(s: Seq<bool>, i: int)
    requires
        0 <= i < s.len(),
        !s[i],
    ensures
        count_true(s.update(i, true)) == count_true(s) + 1,
    decreases s.len(),
{
    let t = s.update(i, true);
    if i == s.len() - 1 {
        assert(t.drop_last() =~= s.drop_last());
        assert(t.last());
    } else {
        assert(t.drop_last() =~= s.drop_last().update(i, true));
        lemma_count_true_update(s.drop_last(), i);
        assert(t.last() == s.last());
    }
}

/// Transitive groups of similar prompts: the snapshot is scanned in
/// order, and every entry with at least one edge at the threshold is
/// placed, by an iterative depth-first traversal, into exactly one group;
/// entries without edges are left out, and every group has at least two
/// members. Each member records the id and text of its snapshot entry,
/// and the similarity of the edge over which the traversal first reached
/// it (the traversal start carries the score 1).
#[verifier::rlimit(100)]
pub fn group_similar_prompts(prompts: &Vec<(i64, String)>, threshold: Similarity) -> (r: Vec<
    Vec<(i64, String, Similarity)>,
>)
    requires
        distinct_ids(entry_views(prompts@)),
    ensures
        forall|g: int| 0 <= g < r@.len() ==> (#[trigger] r@[g])@.len() >= 2,
        groups_ids(r@).no_duplicates(),
        forall|id: int|
            groups_ids(r@).contains(id) <==> id_has_edge(entry_views(prompts@), threshold, id),
        forall|g: int, k: int|
            0 <= g < r@.len() && 0 <= k < r@[g]@.len() ==> entry_ok(
                entry_views(prompts@),
                #[trigger] r@[g]@[k],
            ),
        forall|g: int, k: int|
            0 <= g < r@.len() && 0 <= k < r@[g]@.len() ==> ((#[trigger] r@[g]@[k]).2 == (
            Similarity { num: 1, den: 1 }) || sim_of_edge(
                entry_views(prompts@),
                threshold,
                r@[g]@[k].2,
            )),
{
    let ghost psm = entry_views(prompts@);
    let n = prompts.len();
    let mut adj: Vec<Vec<(usize, Similarity)>> = Vec::new();
    let mut i: usize = 0;
    while i < n
        invariant
            n == prompts@.len(),
            psm == entry_views(prompts@),
            i <= n,
            adj@.len() == i,
            forall|a: int| 0 <= a < i ==> row_ok(psm, threshold, a, (#[trigger] adj@[a])@),
        decreases n - i,
    {
        let row = adjacency_row(prompts, threshold, i);
        adj.push(row);
        i += 1;
    }
    let mut visited: Vec<bool> = Vec::new();
    let mut i: usize = 0;
    while i < n
        invariant
            i <= n,
            visited@.len() == i,
            forall|m: int| 0 <= m < i ==> !(#[trigger] visited@[m]),
        decreases n - i,
    {
        visited.push(false);
        i += 1;
    }
    let mut groups: Vec<Vec<(i64, String, Similarity)>> = Vec::new();
    let ghost mut placed: Seq<int> = Seq::empty();
    assert(groups_ids(groups@) =~= placed.map_values(|idx: int| psm[idx].0));
    let mut s: usize = 0;
    while s < n
        invariant
            n == prompts@.len(),
            psm == entry_views(prompts@),
            distinct_ids(psm),
            adj@.len() == n,
            forall|a: int| 0 <= a < n ==> row_ok(psm, threshold, a, (#[trigger] adj@[a])@),
            visited@.len() == n,
            s <= n,
            forall|idx: int|
                0 <= idx < n ==> ((#[trigger] visited@[idx]) <==> placed.contains(idx)),
            placed.no_duplicates(),
            forall|m: int|
                0 <= m < placed.len() ==> 0 <= #[trigger] placed[m] < n && has_edge(
                    psm,
                    threshold,
                    placed[m],
                ),
            forall|u: int, j: int|
                edge(psm, threshold, u, j) && placed.contains(u) ==> placed.contains(j),
            forall|idx: int|
                0 <= idx < s && has_edge(psm, threshold, idx) ==> placed.contains(idx),
            groups_ids(groups@) == placed.map_values(|idx: int| psm[idx].0),
            forall|g: int| 0 <= g < groups@.len() ==> (#[trigger] groups@[g])@.len() >= 2,
            forall|g: int, k: int|
                0 <= g < groups@.len() && 0 <= k < groups@[g]@.len() ==> entry_ok(
                    psm,
                    #[trigger] groups@[g]@[k],
                ),
            forall|g: int, k: int|
                0 <= g < groups@.len() && 0 <= k < groups@[g]@.len() ==> ((
                #[trigger] groups@[g]@[k]).2 == (Similarity { num: 1, den: 1 }) || sim_of_edge(
                    psm,
                    threshold,
                    groups@[g]@[k].2,
                )),
        decreases n - s,
    {
        if !visited[s] && adj[s].len() > 0 {
            proof {
                let e0 = adj@[s as int]@[0];
                assert(edge(psm, threshold, s as int, e0.0 as int));
                assert(has_edge(psm, threshold, s as int));
                assert(!placed.contains(s as int));
            }
            let mut stack: Vec<(usize, Similarity)> = Vec::new();
            stack.push((s, Similarity::one()));
            assert(stack@[0].0 == s);
            let mut group: Vec<(i64, String, Similarity)> = Vec::new();
            let ghost mut newly: Seq<int> = Seq::empty();
            proof {
                lemma_count_true_le(visited@);
            }
            while stack.len() > 0
                invariant
                    n == prompts@.len(),
                    psm == entry_views(prompts@),
                    distinct_ids(psm),
                    adj@.len() == n,
                    forall|a: int| 0 <= a < n ==> row_ok(psm, threshold, a, (#[trigger] adj@[a])@),
                    visited@.len() == n,
                    s < n,
                    placed.no_duplicates(),
                    forall|m: int|
                        0 <= m < placed.len() ==> 0 <= #[trigger] placed[m] < n && has_edge(
                            psm,
                            threshold,
                            placed[m],
                        ),
                    forall|u: int, j: int|
                        edge(psm, threshold, u, j) && placed.contains(u) ==> placed.contains(j),
                    !placed.contains(s as int),
                    has_edge(psm, threshold, s as int),
                    forall|m: int|
                        0 <= m < stack@.len() ==> 0 <= (#[trigger] stack@[m]).0 < n && has_edge(
                            psm,
                            threshold,
                            stack@[m].0 as int,
                        ),
                    forall|m: int|
                        0 <= m < stack@.len() ==> ((#[trigger] stack@[m]).1 == (Similarity {
                            num: 1,
                            den: 1,
                        }) || sim_of_edge(psm, threshold, stack@[m].1)),
                    forall|idx: int|
                        0 <= idx < n ==> ((#[trigger] visited@[idx]) <==> placed.contains(idx)
                            || newly.contains(idx)),
                    newly.no_duplicates(),
                    forall|m: int| 0 <= m < newly.len() ==> !placed.contains(#[trigger] newly[m]),
                    forall|m: int|
                        0 <= m < newly.len() ==> 0 <= #[trigger] newly[m] < n && has_edge(
                            psm,
                            threshold,
                            newly[m],
                        ),
                    forall|u: int, j: int|
                        edge(psm, threshold, u, j) && newly.contains(u) ==> (visited@[j]
                            || exists|m: int|
                            0 <= m < stack@.len() && (#[trigger] stack@[m]).0 == j),
                    newly.contains(s as int) || exists|m: int|
                        0 <= m < stack@.len() && (#[trigger] stack@[m]).0 == s as int,
                    group@.len() == newly.len(),
                    forall|k: int|
                        0 <= k < newly.len() ==> (#[trigger] group@[k]).0 as int
                            == psm[newly[k]].0 && group@[k].1@ == psm[newly[k]].1,
                    forall|k: int|
                        0 <= k < group@.len() ==> ((#[trigger] group@[k]).2 == (Similarity {
                            num: 1,
                            den: 1,
                        }) || sim_of_edge(psm, threshold, group@[k].2)),
                    count_true(visited@) <= n,
                decreases n - count_true(visited@), stack@.len(),
            {
                let ghost stack0 = stack@;
                let ghost visited0 = visited@;
                if let Some(t) = stack.pop() {
                    let idx = t.0;
                    let sim = t.1;
                    assert(stack@ =~= stack0.drop_last());
                    assert(t == stack0.last());
                    if !visited[idx] {
                        visited[idx] = true;
                        assert(visited@ =~= visited0.update(idx as int, true));
                        proof {
                            lemma_count_true_update(visited0, idx as int);
                            lemma_count_true_le(visited@);
                        }
                        let entry = (prompts[idx].0, prompts[idx].1.clone(), sim);
                        group.push(entry);
                        let ghost newly0 = newly;
                        proof {
                            assert(!newly.contains(idx as int));
                            crate::text::lemma_no_dup_push(newly, idx as int);
                            newly = newly0.push(idx as int);
                            assert(forall|m: int| 0 <= m < newly0.len() ==> newly[m] == newly0[m]);
                            assert(newly.last() == idx as int);
                            assert(forall|x: int|
                                newly0.contains(x) || x == idx as int ==> newly.contains(x)) by {
                                assert forall|x: int|
                                    newly0.contains(x) || x == idx as int implies newly.contains(
                                    x,
                                ) by {
                                    if newly0.contains(x) {
                                        let m0 = choose|m0: int|
                                            0 <= m0 < newly0.len() && newly0[m0] == x;
                                        assert(newly[m0] == x);
                                    } else {
                                        assert(newly[newly.len() - 1] == x);
                                    }
                                }
                            }
                        }
                        let row = &adj[idx];
                        let mut q: usize = 0;
                        while q < row.len()
                            invariant
                                n == prompts@.len(),
                                psm == entry_views(prompts@),
                                visited@.len() == n,
                                idx < n,
                                q <= row@.len(),
                                row_ok(psm, threshold, idx as int, row@),
                                forall|m: int|
                                    0 <= m < stack@.len() ==> 0 <= (#[trigger] stack@[m]).0 < n
                                        && has_edge(psm, threshold, stack@[m].0 as int),
                                forall|m: int|
                                    0 <= m < stack@.len() ==> ((#[trigger] stack@[m]).1 == (
                                    Similarity { num: 1, den: 1 }) || sim_of_edge(
                                        psm,
                                        threshold,
                                        stack@[m].1,
                                    )),
                                forall|kk: int|
                                    0 <= kk < q ==> (visited@[(#[trigger] row@[kk]).0 as int]
                                        || exists|m: int|
                                        0 <= m < stack@.len() && (#[trigger] stack@[m]).0
                                            == row@[kk].0),
                                forall|m: int|
                                    0 <= m < stack0.drop_last().len() ==> stack@[m]
                                        == stack0.drop_last()[m],
                                stack@.len() >= stack0.drop_last().len(),
                                visited@ == visited0.update(idx as int, true),
                            decreases row@.len() - q,
                        {
                            let nb = row[q].0;
                            if !visited[nb] {
                                proof {
                                    assert(edge(psm, threshold, idx as int, nb as int));
                                    lemma_edge_symmetric(psm, threshold, idx as int, nb as int);
                                    assert(has_edge(psm, threshold, nb as int));
                                }
                                let ghost stack1 = stack@;
                                stack.push((nb, row[q].1));
                                assert(forall|m: int|
                                    0 <= m < stack1.len() ==> stack@[m] == stack1[m]);
                                assert(stack@[stack@.len() - 1].0 == nb);
                            }
                            q += 1;
                        }
                        proof {
                            assert forall|u: int, j: int|
                                edge(psm, threshold, u, j) && newly.contains(u) implies (
                            visited@[j] || exists|m: int|
                                0 <= m < stack@.len() && (#[trigger] stack@[m]).0 == j) by {
                                if u == idx as int {
                                    let kk = choose|kk: int|
                                        0 <= kk < row@.len() && (#[trigger] row@[kk]).0 == j;
                                    assert(0 <= kk < row@.len() && row@[kk].0 == j);
                                    assert(visited@[j] || exists|m: int|
                                        0 <= m < stack@.len() && (#[trigger] stack@[m]).0 == j);
                                } else {
                                    assert(newly0.contains(u)) by {
                                        let mu = choose|mu: int|
                                            0 <= mu < newly.len() && newly[mu] == u;
                                        assert(mu < newly.len() - 1);
                                        assert(newly0[mu] == u);
                                    }
                                    if visited0[j] {
                                        assert(visited@[j]);
                                    } else {
                                        if j == idx as int {
                                            assert(visited@[j]);
                                        } else {
                                            let m = choose|m: int|
                                                0 <= m < stack0.len() && (#[trigger] stack0[m]).0
                                                    == j;
                                            if m < stack0.len() - 1 {
                                                assert(stack@[m].0 == j);
                                            } else {
                                                assert(stack0[m] == t);
                                                assert(visited@[j]);
                                            }
                                        }
                                    }
                                }
                            }
                            if idx == s {
                                assert(newly.contains(s as int));
                            } else if !newly0.contains(s as int) {
                                let m = choose|m: int|
                                    0 <= m < stack0.len() && (#[trigger] stack0[m]).0 == s as int;
                                assert(stack0[stack0.len() - 1] == t);
                                assert(m < stack0.len() - 1);
                                assert(stack@[m].0 == s as int);
                            }
                        }
                    } else {
                        proof {
                            assert forall|u: int, j: int|
                                edge(psm, threshold, u, j) && newly.contains(u) implies (
                            visited@[j] || exists|m: int|
                                0 <= m < stack@.len() && (#[trigger] stack@[m]).0 == j) by {
                                if !visited0[j] {
                                    let m = choose|m: int|
                                        0 <= m < stack0.len() && (#[trigger] stack0[m]).0 == j;
                                    if m < stack0.len() - 1 {
                                        assert(stack@[m].0 == j);
                                    } else {
                                        assert(j == idx as int);
                                    }
                                }
                            }
                            if !newly.contains(s as int) {
                                let m = choose|m: int|
                                    0 <= m < stack0.len() && (#[trigger] stack0[m]).0 == s as int;
                                if m < stack0.len() - 1 {
                                    assert(stack@[m].0 == s as int);
                                } else {
                                    assert(idx == s);
                                    assert(placed.contains(s as int) || newly.contains(s as int));
                                }
                            }
                        }
                    }
                }
            }
            // The traversal start and at least one of its neighbours are
            // in the group, so the group has at least two members.
            proof {
                assert(newly.contains(s as int));
                let t0 = choose|j: int| edge(psm, threshold, s as int, j);
                assert(edge(psm, threshold, s as int, t0));
                assert(visited@[t0]);
                lemma_edge_symmetric(psm, threshold, s as int, t0);
                if placed.contains(t0) {
                    assert(placed.contains(s as int));
                    assert(false);
                }
                assert(newly.contains(t0));
                assert(t0 != s as int);
                let ms = choose|m: int| 0 <= m < newly.len() && newly[m] == s as int;
                let mt = choose|m: int| 0 <= m < newly.len() && newly[m] == t0;
                assert(ms != mt);
                assert(newly.len() >= 2);
            }
            if group.len() > 1 {
                proof {
                    lemma_groups_ids_push(groups@, group);
                    assert(group_ids(group@) =~= newly.map_values(|idx: int| psm[idx].0));
                    assert(forall|p: int, q: int|
                        0 <= p < placed.len() && 0 <= q < newly.len() ==> #[trigger] placed[p]
                            != #[trigger] newly[q]) by {
                        assert forall|p: int, q: int|
                            0 <= p < placed.len() && 0 <= q < newly.len() implies #[trigger] placed[p]
                            != #[trigger] newly[q] by {
                            if placed[p] == newly[q] {
                                assert(placed.contains(newly[q]));
                            }
                        }
                    }
                    vstd::seq_lib::lemma_no_dup_in_concat(placed, newly);
                    assert((placed + newly).map_values(|idx: int| psm[idx].0) =~= placed.map_values(
                        |idx: int| psm[idx].0,
                    ) + newly.map_values(|idx: int| psm[idx].0));
                    lemma_concat_contains(placed, newly);
                }
                groups.push(group);
                let ghost pold = placed;
                proof {
                    placed = pold + newly;
                }
                proof {
                    assert forall|u: int, j: int|
                        edge(psm, threshold, u, j) && placed.contains(u) implies placed.contains(
                        j,
                    ) by {
                        if pold.contains(u) {
                            assert(pold.contains(j));
                        } else {
                            assert(newly.contains(u));
                            assert(visited@[j]);
                            assert(pold.contains(j) || newly.contains(j));
                        }
                    }
                }
            }
        } else {
            proof {
                if visited[s as int] {
                } else {
                    assert(adj@[s as int]@.len() == 0);
                    assert(!has_edge(psm, threshold, s as int)) by {
                        if has_edge(psm, threshold, s as int) {
                            let j = choose|j: int| edge(psm, threshold, s as int, j);
                            assert(0 <= j < psm.len());
                            let k = choose|k: int|
                                0 <= k < adj@[s as int]@.len() && (#[trigger] adj@[s as int]@[k]).0
                                    == j;
                        }
                    }
                }
            }
        }
        s += 1;
    }
    proof {
        assert forall|id: int|
            groups_ids(groups@).contains(id) <==> id_has_edge(psm, threshold, id) by {
            let ids = placed.map_values(|idx: int| psm[idx].0);
            if ids.contains(id) {
                let m = choose|m: int| 0 <= m < ids.len() && ids[m] == id;
                assert(placed[m] < n);
                assert(psm[placed[m]].0 == id);
                assert(id_has_edge(psm, threshold, id));
            }
            if id_has_edge(psm, threshold, id) {
                let i0 = choose|i0: int|
                    0 <= i0 < psm.len() && (#[trigger] psm[i0]).0 == id && has_edge(
                        psm,
                        threshold,
                        i0,
                    );
                assert(placed.contains(i0));
                let m = choose|m: int| 0 <= m < placed.len() && placed[m] == i0;
                assert(ids[m] == id);
                assert(ids.contains(id));
            }
        }
        assert(groups_ids(groups@).no_duplicates()) by {
            let ids = placed.map_values(|idx: int| psm[idx].0);
            assert forall|p: int, q: int|
                0 <= p < ids.len() && 0 <= q < ids.len() && p != q implies ids[p] != ids[q] by {
                assert(placed[p] != placed[q]);
            }
        }
    }
    groups
}

pub proof fn lemma_qualifying_from_member(
    ps: Seq<(int, Seq<char>)>,
    thr: Similarity,
    i: int,
    m: int,
)
    requires
        0 <= m < qualifying_from(ps, thr, i).len(),
    ensures
        ({
            let x = qualifying_from(ps, thr, i)[m];
            &&& 1 <= x.den
            &&& x.num <= x.den
            &&& x.num * thr.den >= thr.num * x.den
        }),
    decreases ps.len() - i,
{
    if !(i < 0 || i >= ps.len()) {
        let row = qualifying_row(ps, thr, i, i + 1);
        if m < row.len() {
            lemma_qualifying_row_member(ps, thr, i, i + 1, m);
        } else {
            lemma_qualifying_from_member(ps, thr, i + 1, m - row.len());
        }
    }
}

} // verus!
