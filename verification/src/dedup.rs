//! The review workflow: scan the store for near-duplicate pairs, step
//! through the ranked list, delete one side of a pair with cascade
//! invalidation of the working list, or drop the second prompt of every
//! pair at once.

use vstd::prelude::*;
use crate::similarity::{
    SimilarPair, Similarity, PairModel, pair_views, qualifying_pairs, entry_views, sorted_desc,
    find_similar_pairs,
};
use crate::store::{
    Database, StoreModel, PromptModel, store_wf, spec_delete, remove_id, contains_id_model,
};

verus! {

broadcast use vstd::seq_lib::seq_to_set_is_finite, vstd::set_lib::lemma_set_empty_equivalency_len;

/// The snapshot the similarity engine sees: each live row's id and text,
/// in store order.
pub open spec fn snap_model(rows: Seq<PromptModel>) -> Seq<(int, Seq<char>)> {
    rows.map_values(|p: PromptModel| (p.id, p.text))
}

/// The pairs that survive when the prompt with `id` is deleted: every
/// pair referencing `id` on either side is dropped.
pub open spec fn retain_pairs(ps: Seq<PairModel>, id: int) -> Seq<PairModel>
    decreases ps.len(),
{
    if ps.len() == 0 {
        Seq::empty()
    } else if ps.last().id_a == id || ps.last().id_b == id {
        retain_pairs(ps.drop_last(), id)
    } else {
        retain_pairs(ps.drop_last(), id).push(ps.last())
    }
}

/// The `id_b` column of the working list, in list order.
pub open spec fn ids_b(ps: Seq<PairModel>) -> Seq<int> {
    ps.map_values(|p: PairModel| p.id_b)
}

/// Deleting a list of ids from the store, first to last.
pub open spec fn spec_delete_all(m: StoreModel, ids: Seq<int>) -> StoreModel
    decreases ids.len(),
{
    if ids.len() == 0 {
        m
    } else {
        spec_delete_all(spec_delete(m, ids[0]), ids.drop_first())
    }
}

/// Mathematical model of the review state: the working pair list and
/// the operator's position in it.
pub ghost struct ReviewModel {
    pub pairs: Seq<PairModel>,
    pub index: int,
}

/// The review state machine. An empty working list is the idle state;
/// a non-empty one is being reviewed at `index`, always in bounds.
pub struct DedupController {
    pairs: Vec<SimilarPair>,
    index: usize,
}

impl View for DedupController {
    type V = ReviewModel;

    closed spec fn view(&self) -> ReviewModel {
        ReviewModel { pairs: pair_views(self.pairs@), index: self.index as int }
    }
}

/// The operator's position is clamped into the working list.
pub open spec fn review_wf(m: ReviewModel) -> bool {
    if m.pairs.len() == 0 {
        m.index == 0
    } else {
        0 <= m.index < m.pairs.len()
    }
}

/// An owned copy of a pair.
fn clone_pair(p: &SimilarPair) -> (r: SimilarPair)
    ensures
        r@ == p@,
{
    SimilarPair {
        id_a: p.id_a,
        text_a: p.text_a.clone(),
        id_b: p.id_b,
        text_b: p.text_b.clone(),
        similarity: p.similarity,
    }
}

impl DedupController {
    /// A fresh, idle controller with an empty working list.
    pub fn new() -> (c: Self)
        ensures
            c@.pairs.len() == 0,
            c@.index == 0,
            review_wf(c@),
    {
        let c = DedupController { pairs: Vec::new(), index: 0 };
        proof {
            assert(pair_views(c.pairs@) =~= Seq::<PairModel>::empty());
        }
        c
    }

    /// How many pairs are in the working list.
    pub fn pair_count(&self) -> (n: usize)
        ensures
            n == self@.pairs.len(),
    {
        self.pairs.len()
    }

    /// The operator's position in the working list.
    pub fn current_index(&self) -> (i: usize)
        ensures
            i == self@.index,
    {
        self.index
    }

    /// The pair under review, if the list is not empty.
    pub fn current_pair(&self) -> (r: Option<&SimilarPair>)
        requires
            review_wf(self@),
        ensures
            match r {
                Some(p) => self@.pairs.len() > 0 && p@ == self@.pairs[self@.index],
                None => self@.pairs.len() == 0,
            },
    {
        if self.pairs.len() == 0 {
            None
        } else {
            Some(&self.pairs[self.index])
        }
    }

    /// Take a fresh snapshot of the store, compute the ranked list of
    /// qualifying pairs, replace the working list, and start at the
    /// first pair.
    pub fn scan(&mut self, db: &Database, threshold: Similarity)
        ensures
            final(self)@.pairs.to_multiset() == qualifying_pairs(
                snap_model(db@.rows),
                threshold,
            ).to_multiset(),
            sorted_desc(final(self)@.pairs),
            final(self)@.index == 0,
            review_wf(final(self)@),
            forall|k: int|
                0 <= k < final(self)@.pairs.len() ==> {
                    &&& 1 <= (#[trigger] final(self)@.pairs[k]).den
                    &&& final(self)@.pairs[k].num <= final(self)@.pairs[k].den
                    &&& final(self)@.pairs[k].num * threshold.den
                        >= threshold.num * final(self)@.pairs[k].den
                },
    {
        let all = db.get_all();
        let mut snap: Vec<(i64, String)> = Vec::new();
        let mut i: usize = 0;
        while i < all.len()
            invariant
                i <= all@.len(),
                snap@.len() == i,
                forall|k: int|
                    0 <= k < i ==> (#[trigger] snap@[k]).0 == all@[k].id && snap@[k].1@
                        == all@[k].text@,
            decreases all@.len() - i,
        {
            snap.push((all[i].id, all[i].text.clone()));
            i += 1;
        }
        proof {
            assert(entry_views(snap@) =~= snap_model(crate::store::row_views(all@)));
        }
        self.pairs = find_similar_pairs(&snap, threshold);
        self.index = 0;
    }

    /// Step to the next pair; a no-op at the end of the list.
    pub fn next(&mut self)
        requires
            review_wf(old(self)@),
        ensures
            final(self)@.pairs == old(self)@.pairs,
            review_wf(final(self)@),
            final(self)@.index == if old(self)@.index + 1 < old(self)@.pairs.len() {
                old(self)@.index + 1
            } else {
                old(self)@.index
            },
    {
        if self.pairs.len() > 0 && self.index + 1 < self.pairs.len() {
            self.index = self.index + 1;
        }
    }

    /// Step to the previous pair; a no-op at the start of the list.
    pub fn previous(&mut self)
        requires
            review_wf(old(self)@),
        ensures
            final(self)@.pairs == old(self)@.pairs,
            review_wf(final(self)@),
            final(self)@.index == if old(self)@.index > 0 {
                old(self)@.index - 1
            } else {
                0
            },
    {
        if self.index > 0 {
            self.index = self.index - 1;
        }
    }

    /// Delete one prompt from the store, then drop every pair of the
    /// working list that references it on either side, and clamp the
    /// position into the new bounds.
    pub fn delete_side(&mut self, db: &mut Database, id: i64)
        requires
            store_wf(old(db)@),
            review_wf(old(self)@),
        ensures
            final(db)@ == spec_delete(old(db)@, id as int),
            store_wf(final(db)@),
            !contains_id_model(final(db)@.rows, id as int),
            final(self)@.pairs == retain_pairs(old(self)@.pairs, id as int),
            forall|k: int|
                0 <= k < final(self)@.pairs.len() ==> (#[trigger] final(self)@.pairs[k]).id_a
                    != id as int && final(self)@.pairs[k].id_b != id as int,
            review_wf(final(self)@),
            final(self)@.index == if final(self)@.pairs.len() == 0 {
                0int
            } else if old(self)@.index < final(self)@.pairs.len() {
                old(self)@.index
            } else {
                final(self)@.pairs.len() - 1
            },
    {
        db.delete_prompt(id);
        let ghost ps0 = pair_views(self.pairs@);
        let mut kept: Vec<SimilarPair> = Vec::new();
        let mut i: usize = 0;
        assert(ps0.subrange(0, 0) =~= Seq::<PairModel>::empty());
        assert(pair_views(kept@) =~= retain_pairs(ps0.subrange(0, 0), id as int));
        while i < self.pairs.len()
            invariant
                ps0 == pair_views(self.pairs@),
                self.pairs@.len() == ps0.len(),
                i <= ps0.len(),
                pair_views(kept@) == retain_pairs(ps0.subrange(0, i as int), id as int),
                forall|k: int|
                    0 <= k < pair_views(kept@).len() ==> (#[trigger] pair_views(kept@)[k]).id_a
                        != id as int && pair_views(kept@)[k].id_b != id as int,
            decreases ps0.len() - i,
        {
            let ghost prefix = ps0.subrange(0, i as int);
            let ghost step = ps0.subrange(0, i + 1 as int);
            assert(step.drop_last() =~= prefix);
            assert(step.last() == ps0[i as int]);
            let ghost kept0 = pair_views(kept@);
            if self.pairs[i].id_a != id && self.pairs[i].id_b != id {
                let c = clone_pair(&self.pairs[i]);
                proof {
                    crate::similarity::lemma_pair_views_push(kept@, c);
                }
                kept.push(c);
                assert(pair_views(kept@) == kept0.push(ps0[i as int]));
            }
            i += 1;
        }
        assert(ps0.subrange(0, ps0.len() as int) =~= ps0);
        self.pairs = kept;
        if self.pairs.len() == 0 {
            self.index = 0;
        } else if self.index >= self.pairs.len() {
            self.index = self.pairs.len() - 1;
        }
    }

    /// Drop the second prompt of every pair in the working list, first
    /// pair to last (an id already gone is a silent no-op), then clear
    /// the list and return to the start. Returns how many prompts were
    /// actually removed from the store.
    pub fn remove_all_duplicates(&mut self, db: &mut Database) -> (removed: i64)
        requires
            store_wf(old(db)@),
            review_wf(old(self)@),
        ensures
            final(db)@ == spec_delete_all(old(db)@, ids_b(old(self)@.pairs)),
            store_wf(final(db)@),
            final(self)@.pairs.len() == 0,
            final(self)@.index == 0,
            review_wf(final(self)@),
            removed + final(db)@.rows.len() == old(db)@.rows.len(),
    {
        let ghost m0 = db@;
        let ghost ids = ids_b(pair_views(self.pairs@));
        let before = db.count();
        let mut i: usize = 0;
        assert(ids.subrange(0, ids.len() as int) =~= ids);
        while i < self.pairs.len()
            invariant
                ids == ids_b(pair_views(self.pairs@)),
                self.pairs@.len() == ids.len(),
                i <= ids.len(),
                store_wf(db@),
                spec_delete_all(m0, ids) == spec_delete_all(
                    db@,
                    ids.subrange(i as int, ids.len() as int),
                ),
                db@.rows.len() <= m0.rows.len(),
            decreases ids.len() - i,
        {
            let ghost rest = ids.subrange(i as int, ids.len() as int);
            assert(rest[0] == ids[i as int]);
            assert(rest.drop_first() =~= ids.subrange(i + 1 as int, ids.len() as int));
            proof {
                lemma_remove_id_le(db@.rows, ids[i as int]);
            }
            db.delete_prompt(self.pairs[i].id_b);
            i += 1;
        }
        assert(ids.subrange(ids.len() as int, ids.len() as int) =~= Seq::<int>::empty());
        self.pairs.clear();
        self.index = 0;
        let after = db.count();
        proof {
            assert(pair_views(self.pairs@) =~= Seq::<PairModel>::empty());
        }
        before - after
    }
}

/// The ids of a row list, in row order.
pub open spec fn rids(rows: Seq<PromptModel>) -> Seq<int> {
    rows.map_values(|p: PromptModel| p.id)
}

/// Dropping one id from rows with pairwise distinct ids drops exactly
/// the rows carrying it: one when it is live, none when it is not.
pub proof fn lemma_remove_id_ids(rows: Seq<PromptModel>, a: int)
    requires
        rids(rows).no_duplicates(),
    ensures
        rids(remove_id(rows, a)).no_duplicates(),
        rids(remove_id(rows, a)).to_set() =~= rids(rows).to_set().remove(a),
        remove_id(rows, a).len() == rows.len() - (if rids(rows).to_set().contains(a) {
            1int
        } else {
            0int
        }),
        !rids(rows).to_set().contains(a) ==> remove_id(rows, a) =~= rows,
    decreases rows.len(),
{
    if rows.len() == 0 {
        assert(rids(rows) =~= Seq::<int>::empty());
        assert(remove_id(rows, a) =~= Seq::<PromptModel>::empty());
        assert(rids(rows).to_set().remove(a) =~= Set::<int>::empty());
        assert(rids(remove_id(rows, a)).to_set() =~= Set::<int>::empty());
    } else {
        let front = rows.drop_last();
        let r = rows.last();
        assert(rids(rows) =~= rids(front).push(r.id));
        assert(rids(front).no_duplicates()) by {
            assert(forall|k: int| 0 <= k < front.len() ==> rids(front)[k] == rids(rows)[k]);
        }
        assert(forall|k: int| 0 <= k < front.len() ==> rids(front)[k] == rids(rows)[k]);
        assert(!rids(front).contains(r.id)) by {
            if rids(front).contains(r.id) {
                let k = choose|k: int| 0 <= k < rids(front).len() && rids(front)[k] == r.id;
                assert(rids(rows)[k] == rids(rows)[rows.len() - 1]);
            }
        }
        lemma_remove_id_ids(front, a);
        rids(front).lemma_push_to_set_commute(r.id);
        if r.id == a {
            assert(remove_id(rows, a) == remove_id(front, a));
            assert(!rids(front).to_set().contains(a));
            assert(rids(rows).to_set().contains(a));
            assert(rids(remove_id(rows, a)).to_set() =~= rids(rows).to_set().remove(a));
        } else {
            assert(remove_id(rows, a) == remove_id(front, a).push(r));
            assert(rids(remove_id(rows, a)) =~= rids(remove_id(front, a)).push(r.id));
            assert(!rids(remove_id(front, a)).contains(r.id)) by {
                if rids(remove_id(front, a)).contains(r.id) {
                    assert(rids(remove_id(front, a)).to_set().contains(r.id));
                    assert(rids(front).to_set().contains(r.id));
                }
            }
            crate::text::lemma_no_dup_push(rids(remove_id(front, a)), r.id);
            rids(remove_id(front, a)).lemma_push_to_set_commute(r.id);
            assert(rids(remove_id(rows, a)).to_set() =~= rids(rows).to_set().remove(a));
            assert(rids(rows).to_set().contains(a) == rids(front).to_set().contains(a));
        }
    }
}

/// Dropping a list of ids from rows with pairwise distinct ids removes
/// exactly one row per distinct id that is live.
pub proof fn lemma_delete_all_count(m: StoreModel, ids: Seq<int>)
    requires
        rids(m.rows).no_duplicates(),
    ensures
        rids(spec_delete_all(m, ids).rows).no_duplicates(),
        rids(spec_delete_all(m, ids).rows).to_set() =~= rids(m.rows).to_set().difference(
            ids.to_set(),
        ),
        m.rows.len() - spec_delete_all(m, ids).rows.len() == ids.to_set().intersect(
            rids(m.rows).to_set(),
        ).len(),
    decreases ids.len(),
{
    broadcast use vstd::seq_lib::seq_to_set_is_finite;

    if ids.len() == 0 {
        assert(ids.to_set() =~= Set::<int>::empty());
        assert(rids(spec_delete_all(m, ids).rows).to_set() =~= rids(m.rows).to_set().difference(
            ids.to_set(),
        ));
        assert(ids.to_set().intersect(rids(m.rows).to_set()) =~= Set::<int>::empty());
    } else {
        let a = ids[0];
        let rest = ids.drop_first();
        let m1 = spec_delete(m, a);
        lemma_remove_id_ids(m.rows, a);
        lemma_delete_all_count(m1, rest);
        assert(spec_delete_all(m, ids) == spec_delete_all(m1, rest));
        assert(ids =~= seq![a] + rest);
        assert(forall|x: int| ids.contains(x) == (x == a || rest.contains(x))) by {
            assert forall|x: int| ids.contains(x) == (x == a || rest.contains(x)) by {
                if ids.contains(x) {
                    let k = choose|k: int| 0 <= k < ids.len() && ids[k] == x;
                    if k > 0 {
                        assert(rest[k - 1] == x);
                    }
                }
                if rest.contains(x) {
                    let k = choose|k: int| 0 <= k < rest.len() && rest[k] == x;
                    assert(ids[k + 1] == x);
                }
                if x == a {
                    assert(ids[0] == x);
                }
            }
        }
        assert(rids(spec_delete_all(m, ids).rows).to_set() =~= rids(m.rows).to_set().difference(
            ids.to_set(),
        )) by {
            assert(rids(m1.rows).to_set() =~= rids(m.rows).to_set().remove(a));
        }
        let live = rids(m.rows).to_set();
        let live1 = rids(m1.rows).to_set();
        assert(live1 =~= live.remove(a));
        assert(live.finite());
        assert(live1.finite());
        if live.contains(a) {
            assert(rest.to_set().intersect(live1) =~= ids.to_set().intersect(live).remove(a));
            assert(ids.to_set().intersect(live).contains(a));
            assert(ids.to_set().intersect(live).len() == ids.to_set().intersect(live).remove(
                a,
            ).len() + 1) by {
                vstd::set_lib::lemma_len_subset(
                    ids.to_set().intersect(live),
                    live,
                );
            }
        } else {
            assert(m1 == StoreModel { rows: remove_id(m.rows, a), next_id: m.next_id });
            assert(m1.rows =~= m.rows);
            assert(rest.to_set().intersect(live1) =~= ids.to_set().intersect(live));
        }
    }
}

/// Every live id of a row list is among its ids, and conversely.
pub proof fn lemma_contains_id_rids(rows: Seq<PromptModel>, id: int)
    ensures
        contains_id_model(rows, id) == rids(rows).to_set().contains(id),
{
    if contains_id_model(rows, id) {
        let k = choose|k: int| 0 <= k < rows.len() && (#[trigger] rows[k]).id == id;
        assert(rids(rows)[k] == id);
        assert(rids(rows).contains(id));
    }
    if rids(rows).to_set().contains(id) {
        let k = choose|k: int| 0 <= k < rids(rows).len() && rids(rows)[k] == id;
        assert(rows[k].id == id);
    }
}

/// Removing all duplicates drops exactly one prompt per distinct
/// `id_b` value of the working list, provided every `id_b` is live, as
/// it is right after a scan.
pub proof fn lemma_remove_all_count(m: StoreModel, ps: Seq<PairModel>)
    requires
        store_wf(m),
        forall|k: int|
            0 <= k < ps.len() ==> contains_id_model(m.rows, (#[trigger] ps[k]).id_b),
    ensures
        m.rows.len() - spec_delete_all(m, ids_b(ps)).rows.len() == ids_b(ps).to_set().len(),
{
    broadcast use vstd::seq_lib::seq_to_set_is_finite;

    let ids = ids_b(ps);
    assert(rids(m.rows).no_duplicates()) by {
        assert forall|i: int, j: int|
            0 <= i < rids(m.rows).len() && 0 <= j < rids(m.rows).len() && i != j implies rids(
            m.rows,
        )[i] != rids(m.rows)[j] by {
            if i < j {
                assert(m.rows[i].id < m.rows[j].id);
            } else {
                assert(m.rows[j].id < m.rows[i].id);
            }
        }
    }
    lemma_delete_all_count(m, ids);
    assert(ids.to_set().intersect(rids(m.rows).to_set()) =~= ids.to_set()) by {
        assert forall|x: int| ids.to_set().contains(x) implies rids(m.rows).to_set().contains(
            x,
        ) by {
            let k = choose|k: int| 0 <= k < ids.len() && ids[k] == x;
            assert(ps[k].id_b == x);
            assert(contains_id_model(m.rows, x));
            lemma_contains_id_rids(m.rows, x);
        }
    }
}

/// Dropping one id never grows the row list.
pub proof fn lemma_remove_id_le(rows: Seq<PromptModel>, id: int)
    ensures
        remove_id(rows, id).len() <= rows.len(),
    decreases rows.len(),
{
    if rows.len() > 0 {
        lemma_remove_id_le(rows.drop_last(), id);
    }
}

/// Dropping a list of ids never grows the row list.
pub proof fn lemma_delete_all_le(m: StoreModel, ids: Seq<int>)
    ensures
        spec_delete_all(m, ids).rows.len() <= m.rows.len(),
    decreases ids.len(),
{
    if ids.len() > 0 {
        lemma_remove_id_le(m.rows, ids[0]);
        lemma_delete_all_le(spec_delete(m, ids[0]), ids.drop_first());
    }
}

} // verus!
