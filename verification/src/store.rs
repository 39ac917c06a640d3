//! The prompt store: a keyed collection of prompt texts with stable,
//! never-reused ids, unique-text insertion, silent deletion, in-place
//! text update, and case-insensitive substring search.

use vstd::prelude::*;
use vstd::string::StringExecFns;
use crate::text::{contains_match, chars_of, contains_exec, str_eq};

verus! {

/// A stored prompt: a stable id, its text, and an optional label of the
/// file it was ingested from.
pub struct Prompt {
    pub id: i64,
    pub text: String,
    pub source_file: Option<String>,
}

/// Mathematical model of a [`Prompt`].
pub ghost struct PromptModel {
    pub id: int,
    pub text: Seq<char>,
    pub source_file: Option<Seq<char>>,
}

impl View for Prompt {
    type V = PromptModel;

    open spec fn view(&self) -> PromptModel {
        PromptModel {
            id: self.id as int,
            text: self.text@,
            source_file: match self.source_file {
                Option::Some(s) => Option::Some(s@),
                Option::None => Option::None,
            },
        }
    }
}

/// The models of a list of stored prompts.
pub open spec fn row_views(rows: Seq<Prompt>) -> Seq<PromptModel> {
    rows.map_values(|p: Prompt| p@)
}

/// Mathematical model of the whole store: the live rows in id order, and
/// the next id to issue.
pub ghost struct StoreModel {
    pub rows: Seq<PromptModel>,
    pub next_id: int,
}

/// Well-formed store: ids are at least 1, strictly ascending, and below
/// the next id to issue, so no id is ever reused.
pub open spec fn store_wf(m: StoreModel) -> bool {
    &&& 1 <= m.next_id
    &&& forall|i: int| 0 <= i < m.rows.len() ==> 1 <= (#[trigger] m.rows[i]).id < m.next_id
    &&& forall|i: int, j: int|
        0 <= i < j < m.rows.len() ==> (#[trigger] m.rows[i]).id < (#[trigger] m.rows[j]).id
}

/// No two live rows hold the same text.
pub open spec fn texts_unique(rows: Seq<PromptModel>) -> bool {
    forall|i: int, j: int|
        0 <= i < rows.len() && 0 <= j < rows.len() && i != j ==> (#[trigger] rows[i]).text != (
        #[trigger] rows[j]).text
}

/// Whether some live row holds exactly this text.
pub open spec fn contains_text_model(rows: Seq<PromptModel>, t: Seq<char>) -> bool {
    exists|i: int| 0 <= i < rows.len() && (#[trigger] rows[i]).text == t
}

/// Whether some live row carries this id.
pub open spec fn contains_id_model(rows: Seq<PromptModel>, id: int) -> bool {
    exists|i: int| 0 <= i < rows.len() && (#[trigger] rows[i]).id == id
}

/// Insertion: a no-op when the text is already present, else a new row
/// with the next id appended at the end.
pub open spec fn spec_insert(m: StoreModel, t: Seq<char>, src: Option<Seq<char>>) -> StoreModel {
    if contains_text_model(m.rows, t) {
        m
    } else {
        StoreModel {
            rows: m.rows.push(PromptModel { id: m.next_id, text: t, source_file: src }),
            next_id: m.next_id + 1,
        }
    }
}

/// The rows that do not carry this id, in their stored order.
pub open spec fn remove_id(rows: Seq<PromptModel>, id: int) -> Seq<PromptModel>
    decreases rows.len(),
{
    if rows.len() == 0 {
        Seq::empty()
    } else if rows.last().id == id {
        remove_id(rows.drop_last(), id)
    } else {
        remove_id(rows.drop_last(), id).push(rows.last())
    }
}

/// Deletion: the row with this id is dropped; a silent no-op when absent.
pub open spec fn spec_delete(m: StoreModel, id: int) -> StoreModel {
    StoreModel { rows: remove_id(m.rows, id), next_id: m.next_id }
}

/// The rows whose text contains the query, case folded, in their stored
/// order.
pub open spec fn matching_rows(rows: Seq<PromptModel>, q: Seq<char>) -> Seq<PromptModel>
    decreases rows.len(),
{
    if rows.len() == 0 {
        Seq::empty()
    } else if contains_match(rows.last().text, q, true) {
        matching_rows(rows.drop_last(), q).push(rows.last())
    } else {
        matching_rows(rows.drop_last(), q)
    }
}

/// Text update in place: id and source label survive; a no-op when the
/// id is absent. Uniqueness of texts is not re-checked here: callers
/// must keep the new text from colliding with another live row.
pub open spec fn spec_update(m: StoreModel, id: int, t: Seq<char>) -> StoreModel {
    StoreModel {
        rows: Seq::new(
            m.rows.len(),
            |i: int|
                if m.rows[i].id == id {
                    PromptModel { id: m.rows[i].id, text: t, source_file: m.rows[i].source_file }
                } else {
                    m.rows[i]
                },
        ),
        next_id: m.next_id,
    }
}

/// One entry of a batch insertion: a text and an optional source label.
pub open spec fn entries_model(es: Seq<(String, Option<String>)>) -> Seq<
    (Seq<char>, Option<Seq<char>>),
> {
    es.map_values(
        |e: (String, Option<String>)|
            (
                e.0@,
                match e.1 {
                    Option::Some(s) => Option::Some(s@),
                    Option::None => Option::None,
                },
            ),
    )
}

/// Batch insertion: each entry inserted independently, in input order.
pub open spec fn spec_insert_many(
    m: StoreModel,
    es: Seq<(Seq<char>, Option<Seq<char>>)>,
) -> StoreModel
    decreases es.len(),
{
    if es.len() == 0 {
        m
    } else {
        spec_insert_many(spec_insert(m, es[0].0, es[0].1), es.drop_first())
    }
}

/// How many rows a batch insertion creates: entries whose text is absent
/// when their turn comes (so duplicates, inside or against the store,
/// do not count).
pub open spec fn spec_inserted_count(m: StoreModel, es: Seq<(Seq<char>, Option<Seq<char>>)>) -> nat
    decreases es.len(),
{
    if es.len() == 0 {
        0
    } else {
        (if contains_text_model(m.rows, es[0].0) {
            0nat
        } else {
            1nat
        }) + spec_inserted_count(spec_insert(m, es[0].0, es[0].1), es.drop_first())
    }
}

/// Inserting the same exact text twice creates exactly one row.
pub proof fn lemma_insert_same_text_twice(
    m: StoreModel,
    t: Seq<char>,
    s1: Option<Seq<char>>,
    s2: Option<Seq<char>>,
)
    requires
        !contains_text_model(m.rows, t),
    ensures
        spec_insert(spec_insert(m, t, s1), t, s2) == spec_insert(m, t, s1),
        spec_insert(spec_insert(m, t, s1), t, s2).rows.len() == m.rows.len() + 1,
{
    let m1 = spec_insert(m, t, s1);
    assert(m1.rows[m.rows.len() as int].text == t);
    assert(contains_text_model(m1.rows, t));
}

/// Insertion keeps texts unique: the inserted text was not present.
pub proof fn lemma_insert_preserves_unique(m: StoreModel, t: Seq<char>, src: Option<Seq<char>>)
    requires
        texts_unique(m.rows),
    ensures
        texts_unique(spec_insert(m, t, src).rows),
{
    if !contains_text_model(m.rows, t) {
        let rows2 = spec_insert(m, t, src).rows;
        assert forall|i: int, j: int|
            0 <= i < rows2.len() && 0 <= j < rows2.len() && i != j implies (#[trigger] rows2[i]).text
            != (#[trigger] rows2[j]).text by {
            if i < m.rows.len() && j < m.rows.len() {
                assert(m.rows[i].text != m.rows[j].text);
            } else if i < m.rows.len() {
                assert(!(m.rows[i].text == t));
            } else if j < m.rows.len() {
                assert(!(m.rows[j].text == t));
            }
        }
    }
}

/// Deletion keeps texts unique: what remains is a subsequence.
pub proof fn lemma_delete_preserves_unique(rows: Seq<PromptModel>, id: int)
    requires
        texts_unique(rows),
    ensures
        texts_unique(remove_id(rows, id)),
        forall|k: int|
            0 <= k < remove_id(rows, id).len() ==> exists|m: int|
                0 <= m < rows.len() && #[trigger] remove_id(rows, id)[k] == rows[m],
    decreases rows.len(),
{
    if rows.len() > 0 {
        let front = rows.drop_last();
        let r = rows.last();
        assert(texts_unique(front)) by {
            assert(forall|k: int| 0 <= k < front.len() ==> front[k] == rows[k]);
        }
        lemma_delete_preserves_unique(front, id);
        let kept = remove_id(rows, id);
        assert forall|k: int|
            0 <= k < kept.len() implies exists|m: int|
            0 <= m < rows.len() && #[trigger] kept[k] == rows[m] by {
            if r.id != id && k == kept.len() - 1 {
                assert(kept[k] == rows[rows.len() - 1]);
            } else {
                let m = choose|m: int|
                    0 <= m < front.len() && #[trigger] remove_id(front, id)[k] == front[m];
                assert(kept[k] == rows[m]);
            }
        }
        if r.id != id {
            assert(texts_unique(kept)) by {
                let fk = remove_id(front, id);
                assert forall|a: int, b: int|
                    0 <= a < kept.len() && 0 <= b < kept.len() && a != b implies (
                #[trigger] kept[a]).text != (#[trigger] kept[b]).text by {
                    if a < fk.len() && b < fk.len() {
                        assert(fk[a].text != fk[b].text);
                    } else if a < fk.len() {
                        let m = choose|m: int|
                            0 <= m < front.len() && #[trigger] fk[a] == front[m];
                        assert(rows[m].text != r.text);
                    } else {
                        let m = choose|m: int|
                            0 <= m < front.len() && #[trigger] fk[b] == front[m];
                        assert(rows[m].text != r.text);
                    }
                }
            }
        }
    }
}

/// Rows strictly sorted by id grow at least as fast as their index.
proof fn lemma_ids_grow(rows: Seq<PromptModel>, next_id: int, i: int)
    requires
        store_wf(StoreModel { rows, next_id }),
        0 <= i < rows.len(),
    ensures
        rows[i].id >= 1 + i,
    decreases i,
{
    if i > 0 {
        lemma_ids_grow(rows, next_id, i - 1);
        assert(rows[i - 1].id < rows[i].id);
    }
}

/// A well-formed store cannot hold more rows than ids below `next_id`.
pub proof fn lemma_store_len_bound(m: StoreModel)
    requires
        store_wf(m),
    ensures
        m.rows.len() < m.next_id,
{
    if m.rows.len() > 0 {
        lemma_ids_grow(m.rows, m.next_id, m.rows.len() - 1);
    }
}

/// The prompt store. All operations keep the rows in ascending id order
/// and never reuse an id.
pub struct Database {
    rows: Vec<Prompt>,
    next_id: i64,
}

impl View for Database {
    type V = StoreModel;

    closed spec fn view(&self) -> StoreModel {
        StoreModel { rows: row_views(self.rows@), next_id: self.next_id as int }
    }
}

proof fn lemma_row_views_push(s: Seq<Prompt>, p: Prompt)
    ensures
        row_views(s.push(p)) == row_views(s).push(p@),
{
    assert(row_views(s.push(p)) =~= row_views(s).push(p@));
}

/// An owned copy of a stored prompt.
fn clone_prompt(p: &Prompt) -> (r: Prompt)
    ensures
        r@ == p@,
{
    Prompt {
        id: p.id,
        text: p.text.clone(),
        source_file: match &p.source_file {
            Option::Some(s) => Option::Some(s.clone()),
            Option::None => Option::None,
        },
    }
}

impl Database {
    /// A fresh, empty store; the first id issued is 1.
    pub fn new() -> (s: Self)
        ensures
            s@.rows.len() == 0,
            s@.next_id == 1,
            store_wf(s@),
            texts_unique(s@.rows),
    {
        let s = Database { rows: Vec::new(), next_id: 1 };
        proof {
            assert(row_views(s.rows@) =~= Seq::<PromptModel>::empty());
        }
        s
    }

    /// The position of the row holding exactly this text, if any.
    fn find_by_text(&self, text: &str) -> (r: Option<usize>)
        ensures
            match r {
                Some(i) => i < self@.rows.len() && self@.rows[i as int].text == text@,
                None => !contains_text_model(self@.rows, text@),
            },
    {
        let mut i: usize = 0;
        while i < self.rows.len()
            invariant
                i <= self@.rows.len(),
                self@.rows.len() == self.rows@.len(),
                forall|k: int| 0 <= k < i ==> (#[trigger] self@.rows[k]).text != text@,
            decreases self@.rows.len() - i,
        {
            if str_eq(self.rows[i].text.as_str(), text) {
                return Some(i);
            }
            i += 1;
        }
        None
    }

    /// The position of the row carrying this id, if any.
    fn find_by_id(&self, id: i64) -> (r: Option<usize>)
        ensures
            match r {
                Some(i) => i < self@.rows.len() && self@.rows[i as int].id == id as int,
                None => !contains_id_model(self@.rows, id as int),
            },
    {
        let mut i: usize = 0;
        while i < self.rows.len()
            invariant
                i <= self@.rows.len(),
                self@.rows.len() == self.rows@.len(),
                forall|k: int| 0 <= k < i ==> (#[trigger] self@.rows[k]).id != id as int,
            decreases self@.rows.len() - i,
        {
            if self.rows[i].id == id {
                return Some(i);
            }
            i += 1;
        }
        None
    }

    /// Insert a text: a no-op when a live row already holds exactly this
    /// text (the returned id is that row's); otherwise a new row is
    /// created under the next id, which is returned.
    pub fn insert_prompt(&mut self, text: &str, source_file: Option<&str>) -> (r: i64)
        requires
            store_wf(old(self)@),
            old(self)@.next_id < i64::MAX,
        ensures
            final(self)@ == spec_insert(
                old(self)@,
                text@,
                match source_file {
                    Option::Some(s) => Option::Some(s@),
                    Option::None => Option::None,
                },
            ),
            store_wf(final(self)@),
            contains_text_model(old(self)@.rows, text@) ==> final(self)@ == old(self)@
                && contains_id_model(old(self)@.rows, r as int),
            !contains_text_model(old(self)@.rows, text@) ==> r == old(self)@.next_id,
            exists|i: int|
                0 <= i < final(self)@.rows.len() && (#[trigger] final(self)@.rows[i]).id == r as int
                    && final(self)@.rows[i].text == text@,
    {
        match self.find_by_text(text) {
            Some(i) => {
                let r = self.rows[i].id;
                assert(contains_text_model(self@.rows, text@));
                assert(self@.rows[i as int].id == r as int);
                r
            },
            None => {
                let id = self.next_id;
                let p = Prompt {
                    id,
                    text: String::from_str(text),
                    source_file: match source_file {
                        Option::Some(s) => Option::Some(String::from_str(s)),
                        Option::None => Option::None,
                    },
                };
                let ghost rows0 = row_views(self.rows@);
                proof {
                    assert(p@ == (PromptModel {
                        id: self.next_id as int,
                        text: text@,
                        source_file: match source_file {
                            Option::Some(s) => Option::Some(s@),
                            Option::None => Option::None,
                        },
                    }));
                }
                self.rows.push(p);
                self.next_id = id + 1;
                proof {
                    assert(row_views(self.rows@) =~= rows0.push(
                        PromptModel {
                            id: id as int,
                            text: text@,
                            source_file: match source_file {
                                Option::Some(s) => Option::Some(s@),
                                Option::None => Option::None,
                            },
                        },
                    ));
                    assert(self@.rows[rows0.len() as int].id == id as int);
                }
                id
            },
        }
    }

    /// Insert each entry independently, in input order, and return how
    /// many rows were actually created (duplicates are skipped).
    pub fn insert_prompts(&mut self, prompts: &Vec<(String, Option<String>)>) -> (count: usize)
        requires
            store_wf(old(self)@),
            old(self)@.next_id + prompts@.len() <= i64::MAX,
        ensures
            final(self)@ == spec_insert_many(old(self)@, entries_model(prompts@)),
            count == spec_inserted_count(old(self)@, entries_model(prompts@)),
            count + old(self)@.rows.len() == final(self)@.rows.len(),
            store_wf(final(self)@),
    {
        let ghost es = entries_model(prompts@);
        let ghost m0 = self@;
        let mut count: usize = 0;
        let mut i: usize = 0;
        assert(es.subrange(0, es.len() as int) =~= es);
        while i < prompts.len()
            invariant
                prompts@.len() == es.len(),
                es == entries_model(prompts@),
                i <= es.len(),
                store_wf(self@),
                self@.next_id + (es.len() - i) <= i64::MAX,
                spec_insert_many(m0, es) == spec_insert_many(self@, es.subrange(i as int, es.len() as int)),
                spec_inserted_count(m0, es) == count + spec_inserted_count(
                    self@,
                    es.subrange(i as int, es.len() as int),
                ),
                count <= i,
                count + m0.rows.len() == self@.rows.len(),
            decreases es.len() - i,
        {
            let ghost rest = es.subrange(i as int, es.len() as int);
            let ghost cur = self@;
            assert(rest[0] == es[i as int]);
            assert(rest.drop_first() =~= es.subrange(i + 1 as int, es.len() as int));
            let existed = match self.find_by_text(prompts[i].0.as_str()) {
                Some(_) => true,
                None => false,
            };
            let src: Option<&str> = match &prompts[i].1 {
                Option::Some(s) => Option::Some(s.as_str()),
                Option::None => Option::None,
            };
            self.insert_prompt(prompts[i].0.as_str(), src);
            if !existed {
                assert(self@.rows.len() == cur.rows.len() + 1);
                count += 1;
            } else {
                assert(self@ == cur);
            }
            i += 1;
        }
        assert(es.subrange(es.len() as int, es.len() as int) =~= Seq::<
            (Seq<char>, Option<Seq<char>>),
        >::empty());
        count
    }

    /// Remove the row with this id; an absent id is a silent no-op.
    pub fn delete_prompt(&mut self, id: i64)
        requires
            store_wf(old(self)@),
        ensures
            final(self)@ == spec_delete(old(self)@, id as int),
            store_wf(final(self)@),
            forall|k: int|
                0 <= k < final(self)@.rows.len() ==> (#[trigger] final(self)@.rows[k]).id
                    != id as int,
            !contains_id_model(final(self)@.rows, id as int),
    {
        let ghost m0 = self@;
        let ghost rows0 = row_views(self.rows@);
        let mut kept: Vec<Prompt> = Vec::new();
        let mut i: usize = 0;
        assert(rows0.subrange(0, 0) =~= Seq::<PromptModel>::empty());
        assert(row_views(kept@) =~= remove_id(rows0.subrange(0, 0), id as int));
        while i < self.rows.len()
            invariant
                rows0 == row_views(self.rows@),
                self.rows@.len() == rows0.len(),
                store_wf(self@),
                i <= rows0.len(),
                row_views(kept@) == remove_id(rows0.subrange(0, i as int), id as int),
                forall|a: int|
                    0 <= a < row_views(kept@).len() ==> (#[trigger] row_views(kept@)[a]).id
                        != id as int,
                forall|a: int, b: int|
                    0 <= a < b < row_views(kept@).len() ==> (#[trigger] row_views(kept@)[a]).id < (
                    #[trigger] row_views(kept@)[b]).id,
                forall|a: int|
                    0 <= a < row_views(kept@).len() ==> 1 <= (#[trigger] row_views(kept@)[a]).id
                        < self@.next_id,
                i < rows0.len() ==> forall|a: int|
                    0 <= a < row_views(kept@).len() ==> (#[trigger] row_views(kept@)[a]).id
                        < rows0[i as int].id,
            decreases rows0.len() - i,
        {
            let ghost prefix = rows0.subrange(0, i as int);
            let ghost step = rows0.subrange(0, i + 1 as int);
            assert(step.drop_last() =~= prefix);
            assert(step.last() == rows0[i as int]);
            let ghost kept0 = row_views(kept@);
            if self.rows[i].id != id {
                let c = clone_prompt(&self.rows[i]);
                proof {
                    lemma_row_views_push(kept@, c);
                }
                kept.push(c);
                assert(row_views(kept@) == kept0.push(rows0[i as int]));
            }
            i += 1;
        }
        assert(rows0.subrange(0, rows0.len() as int) =~= rows0);
        self.rows = kept;
        proof {
            if contains_id_model(self@.rows, id as int) {
                let k = choose|k: int|
                    0 <= k < self@.rows.len() && (#[trigger] self@.rows[k]).id == id as int;
            }
        }
    }

    /// Overwrite the text of the row with this id, leaving its id and
    /// source label alone; returns whether the row existed. Uniqueness
    /// of texts is not re-checked: the caller must keep the new text
    /// from colliding with another live row.
    pub fn update_prompt(&mut self, id: i64, new_text: &str) -> (existed: bool)
        requires
            store_wf(old(self)@),
        ensures
            final(self)@ == spec_update(old(self)@, id as int, new_text@),
            store_wf(final(self)@),
            existed == contains_id_model(old(self)@.rows, id as int),
    {
        let ghost m0 = self@;
        match self.find_by_id(id) {
            Some(i) => {
                let p = Prompt {
                    id: self.rows[i].id,
                    text: String::from_str(new_text),
                    source_file: match &self.rows[i].source_file {
                        Option::Some(s) => Option::Some(s.clone()),
                        Option::None => Option::None,
                    },
                };
                self.rows[i] = p;
                proof {
                    assert(self@.rows[i as int].text == new_text@);
                    assert forall|k: int|
                        0 <= k < self@.rows.len() implies self@.rows[k] == spec_update(
                        m0,
                        id as int,
                        new_text@,
                    ).rows[k] by {
                        if k != i {
                            assert(m0.rows[k].id != id as int);
                        }
                    }
                    assert(self@.rows =~= spec_update(m0, id as int, new_text@).rows);
                    assert(contains_id_model(m0.rows, id as int));
                }
                true
            },
            None => {
                proof {
                    assert forall|k: int|
                        0 <= k < self@.rows.len() implies self@.rows[k] == spec_update(
                        m0,
                        id as int,
                        new_text@,
                    ).rows[k] by {
                        assert(m0.rows[k].id != id as int);
                    }
                    assert(self@.rows =~= spec_update(m0, id as int, new_text@).rows);
                }
                false
            },
        }
    }

    /// All live prompts, in ascending id order (the stored order).
    pub fn get_all(&self) -> (r: Vec<Prompt>)
        ensures
            row_views(r@) == self@.rows,
    {
        let mut r: Vec<Prompt> = Vec::new();
        let mut i: usize = 0;
        while i < self.rows.len()
            invariant
                i <= self.rows@.len(),
                row_views(r@) == row_views(self.rows@).subrange(0, i as int),
            decreases self.rows@.len() - i,
        {
            let c = clone_prompt(&self.rows[i]);
            proof {
                lemma_row_views_push(r@, c);
            }
            r.push(c);
            assert(row_views(self.rows@).subrange(0, i as int).push(
                row_views(self.rows@)[i as int],
            ) =~= row_views(self.rows@).subrange(0, i + 1 as int));
            i += 1;
        }
        assert(row_views(self.rows@).subrange(0, self.rows@.len() as int) =~= row_views(
            self.rows@,
        ));
        r
    }

    /// The live prompts whose text contains the query, compared case
    /// insensitively, in the same order as [`Database::get_all`].
    pub fn search(&self, query: &str) -> (r: Vec<Prompt>)
        ensures
            row_views(r@) == matching_rows(self@.rows, query@),
    {
        let ghost rows0 = row_views(self.rows@);
        let qv = chars_of(query);
        let mut r: Vec<Prompt> = Vec::new();
        let mut i: usize = 0;
        assert(rows0.subrange(0, 0) =~= Seq::<PromptModel>::empty());
        assert(row_views(r@) =~= matching_rows(rows0.subrange(0, 0), query@));
        while i < self.rows.len()
            invariant
                rows0 == row_views(self.rows@),
                self.rows@.len() == rows0.len(),
                qv@ == query@,
                i <= rows0.len(),
                row_views(r@) == matching_rows(rows0.subrange(0, i as int), query@),
            decreases rows0.len() - i,
        {
            let ghost prefix = rows0.subrange(0, i as int);
            let ghost step = rows0.subrange(0, i + 1 as int);
            assert(step.drop_last() =~= prefix);
            assert(step.last() == rows0[i as int]);
            let ghost r0 = row_views(r@);
            let tv = chars_of(self.rows[i].text.as_str());
            if contains_exec(&tv, &qv, true) {
                let c = clone_prompt(&self.rows[i]);
                proof {
                    lemma_row_views_push(r@, c);
                }
                r.push(c);
                assert(row_views(r@) == r0.push(rows0[i as int]));
            }
            i += 1;
        }
        assert(rows0.subrange(0, rows0.len() as int) =~= rows0);
        r
    }

    /// How many prompts are live.
    pub fn count(&self) -> (n: i64)
        requires
            store_wf(self@),
        ensures
            n == self@.rows.len(),
    {
        proof {
            lemma_store_len_bound(self@);
        }
        self.rows.len() as i64
    }
}

} // verus!
