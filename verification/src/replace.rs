//! The find-and-replace preview engine: a dry-run substitution computed
//! over the whole corpus, and its row-by-row commit back to the store.

use vstd::prelude::*;
use crate::text::{
    contains_match, replace_seq, chars_of, contains_exec, replace_chars, string_from_chars,
};
use crate::store::{Database, StoreModel, PromptModel, store_wf, spec_update, row_views};

verus! {

/// One row of a dry-run: the prompt it touches, its text now, and its
/// text after the substitution.
pub struct ReplacePreview {
    pub id: i64,
    pub original: String,
    pub replaced: String,
}

/// Mathematical model of a [`ReplacePreview`].
pub ghost struct PreviewModel {
    pub id: int,
    pub original: Seq<char>,
    pub replaced: Seq<char>,
}

impl View for ReplacePreview {
    type V = PreviewModel;

    open spec fn view(&self) -> PreviewModel {
        PreviewModel { id: self.id as int, original: self.original@, replaced: self.replaced@ }
    }
}

/// The models of a list of previews.
pub open spec fn preview_views(s: Seq<ReplacePreview>) -> Seq<PreviewModel> {
    s.map_values(|p: ReplacePreview| p@)
}

proof fn lemma_preview_views_push(s: Seq<ReplacePreview>, p: ReplacePreview)
    ensures
        preview_views(s.push(p)) == preview_views(s).push(p@),
{
    assert(preview_views(s.push(p)) =~= preview_views(s).push(p@));
}

/// The preview of one row: all non-overlapping occurrences replaced,
/// case folded when the search is not case sensitive.
pub open spec fn preview_of(p: PromptModel, f: Seq<char>, rep: Seq<char>, cs: bool) -> PreviewModel {
    PreviewModel { id: p.id, original: p.text, replaced: replace_seq(p.text, f, rep, !cs) }
}

/// The dry-run over a row list: one preview for every row whose text
/// contains the pattern, in store order; an empty pattern matches no
/// row.
pub open spec fn previews_model(
    rows: Seq<PromptModel>,
    f: Seq<char>,
    rep: Seq<char>,
    cs: bool,
) -> Seq<PreviewModel>
    decreases rows.len(),
{
    if f.len() == 0 || rows.len() == 0 {
        Seq::empty()
    } else if contains_match(rows.last().text, f, !cs) {
        previews_model(rows.drop_last(), f, rep, cs).push(preview_of(rows.last(), f, rep, cs))
    } else {
        previews_model(rows.drop_last(), f, rep, cs)
    }
}

/// Compute the dry-run for the whole corpus: every live prompt whose
/// text contains the pattern, with its substituted text; nothing is
/// written to the store.
pub fn compute_preview(
    db: &Database,
    find_text: &str,
    replace_text: &str,
    case_sensitive: bool,
) -> (r: Vec<ReplacePreview>)
    ensures
        preview_views(r@) == previews_model(db@.rows, find_text@, replace_text@, case_sensitive),
{
    let mut r: Vec<ReplacePreview> = Vec::new();
    if find_text.is_empty() {
        assert(preview_views(r@) =~= Seq::<PreviewModel>::empty());
        return r;
    }
    let fv = chars_of(find_text);
    let rv = chars_of(replace_text);
    let ci = !case_sensitive;
    let all = db.get_all();
    let ghost rows0 = row_views(all@);
    let mut i: usize = 0;
    assert(rows0.subrange(0, 0) =~= Seq::<PromptModel>::empty());
    assert(preview_views(r@) =~= previews_model(
        rows0.subrange(0, 0),
        find_text@,
        replace_text@,
        case_sensitive,
    ));
    while i < all.len()
        invariant
            rows0 == row_views(all@),
            all@.len() == rows0.len(),
            fv@ == find_text@,
            rv@ == replace_text@,
            ci == !case_sensitive,
            find_text@.len() >= 1,
            i <= rows0.len(),
            preview_views(r@) == previews_model(
                rows0.subrange(0, i as int),
                find_text@,
                replace_text@,
                case_sensitive,
            ),
        decreases rows0.len() - i,
    {
        let ghost prefix = rows0.subrange(0, i as int);
        let ghost step = rows0.subrange(0, i + 1 as int);
        assert(step.drop_last() =~= prefix);
        assert(step.last() == rows0[i as int]);
        let ghost r0 = preview_views(r@);
        let tv = chars_of(all[i].text.as_str());
        if contains_exec(&tv, &fv, ci) {
            let out = replace_chars(&tv, &fv, &rv, ci);
            let p = ReplacePreview {
                id: all[i].id,
                original: all[i].text.clone(),
                replaced: string_from_chars(&out),
            };
            proof {
                lemma_preview_views_push(r@, p);
                assert(p@ == preview_of(rows0[i as int], find_text@, replace_text@, case_sensitive));
            }
            r.push(p);
            assert(preview_views(r@) == r0.push(
                preview_of(rows0[i as int], find_text@, replace_text@, case_sensitive),
            ));
        }
        i += 1;
    }
    assert(rows0.subrange(0, rows0.len() as int) =~= rows0);
    r
}

/// Committing a dry-run: each preview's replaced text written over its
/// row, first to last.
pub open spec fn spec_apply(m: StoreModel, ps: Seq<PreviewModel>) -> StoreModel
    decreases ps.len(),
{
    if ps.len() == 0 {
        m
    } else {
        spec_apply(spec_update(m, ps[0].id, ps[0].replaced), ps.drop_first())
    }
}

/// Write every preview back to the store, in list order, consuming the
/// preview list; returns how many previews were processed (not how many
/// rows actually changed). Each write is an unchecked text overwrite:
/// substitutions can make two rows identical, and no uniqueness check
/// is re-run here.
pub fn apply_replacements(db: &mut Database, previews: Vec<ReplacePreview>) -> (n: usize)
    requires
        store_wf(old(db)@),
    ensures
        final(db)@ == spec_apply(old(db)@, preview_views(previews@)),
        store_wf(final(db)@),
        n == previews@.len(),
{
    let ghost m0 = db@;
    let ghost ps = preview_views(previews@);
    let mut i: usize = 0;
    assert(ps.subrange(0, ps.len() as int) =~= ps);
    while i < previews.len()
        invariant
            ps == preview_views(previews@),
            previews@.len() == ps.len(),
            i <= ps.len(),
            store_wf(db@),
            spec_apply(m0, ps) == spec_apply(db@, ps.subrange(i as int, ps.len() as int)),
        decreases ps.len() - i,
    {
        let ghost rest = ps.subrange(i as int, ps.len() as int);
        assert(rest[0] == ps[i as int]);
        assert(rest.drop_first() =~= ps.subrange(i + 1 as int, ps.len() as int));
        db.update_prompt(previews[i].id, previews[i].replaced.as_str());
        i += 1;
    }
    assert(ps.subrange(ps.len() as int, ps.len() as int) =~= Seq::<PreviewModel>::empty());
    previews.len()
}

} // verus!
