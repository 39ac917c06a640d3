//! Plain-text ingestion and export: one prompt per line on the way in
//! (trimmed, blank lines skipped, tagged with the source label), one
//! text per line on the way out.

use vstd::prelude::*;
use vstd::string::StringExecFns;
use crate::text::{trim_seq, trim_chars, chars_of, string_from_chars};
use crate::store::{Prompt, PromptModel, row_views, entries_model};

verus! {

/// Index of the first line break at or after `i` (or the end of the
/// text): the end of the line starting at `i`.
pub open spec fn line_end(s: Seq<char>, i: int) -> int
    decreases s.len() - i,
{
    if i < 0 || i >= s.len() || s[i] == '\n' {
        i
    } else {
        line_end(s, i + 1)
    }
}

pub proof fn lemma_line_end(s: Seq<char>, i: int)
    requires
        0 <= i <= s.len(),
    ensures
        i <= line_end(s, i) <= s.len(),
    decreases s.len() - i,
{
    if i < s.len() && s[i] != '\n' {
        lemma_line_end(s, i + 1);
    }
}

#[via_fn]
proof fn import_from_decreases(s: Seq<char>, src: Seq<char>, i: int) {
    if 0 <= i < s.len() {
        lemma_line_end(s, i);
    }
}

/// The batch entries an ingested text produces, reading from position
/// `i`: each line trimmed of surrounding whitespace, blank lines
/// skipped, every surviving line tagged with the source label.
pub open spec fn import_from(s: Seq<char>, src: Seq<char>, i: int) -> Seq<
    (Seq<char>, Option<Seq<char>>),
>
    decreases s.len() + 1 - i,
    via import_from_decreases
{
    if i < 0 || i >= s.len() {
        Seq::empty()
    } else {
        let e = line_end(s, i);
        let t = trim_seq(s.subrange(i, e));
        let rest = import_from(s, src, e + 1);
        if t.len() > 0 {
            seq![(t, Option::Some(src))] + rest
        } else {
            rest
        }
    }
}

/// All the batch entries an ingested text produces.
pub open spec fn import_entries(s: Seq<char>, src: Seq<char>) -> Seq<
    (Seq<char>, Option<Seq<char>>),
> {
    import_from(s, src, 0)
}

proof fn lemma_entries_push(s: Seq<(String, Option<String>)>, e: (String, Option<String>))
    ensures
        entries_model(s.push(e)) == entries_model(s).push(
            (
                e.0@,
                match e.1 {
                    Option::Some(l) => Option::Some(l@),
                    Option::None => Option::None,
                },
            ),
        ),
{
    assert(entries_model(s.push(e)) =~= entries_model(s).push(
        (
            e.0@,
            match e.1 {
                Option::Some(l) => Option::Some(l@),
                Option::None => Option::None,
            },
        ),
    ));
}

/// Parse an ingested text into batch entries: one prompt per line,
/// trimmed of surrounding whitespace, blank lines skipped, each entry
/// tagged with the name of its source file.
pub fn parse_prompts(contents: &str, source_name: &str) -> (r: Vec<(String, Option<String>)>)
    ensures
        entries_model(r@) == import_entries(contents@, source_name@),
{
    let cv = chars_of(contents);
    let n = cv.len();
    let mut r: Vec<(String, Option<String>)> = Vec::new();
    let mut i: usize = 0;
    assert(entries_model(r@) =~= Seq::<(Seq<char>, Option<Seq<char>>)>::empty());
    while i < n
        invariant
            cv@ == contents@,
            n == cv@.len(),
            i <= n + 1,
            import_entries(contents@, source_name@) == entries_model(r@) + import_from(
                contents@,
                source_name@,
                i as int,
            ),
        decreases n + 1 - i,
    {
        let start = i;
        let mut j: usize = i;
        while j < n && cv[j] != '\n'
            invariant
                n == cv@.len(),
                start <= j <= n,
                line_end(cv@, start as int) == line_end(cv@, j as int),
            decreases n - j,
        {
            j += 1;
        }
        assert(line_end(cv@, start as int) == j);
        let mut line: Vec<char> = Vec::new();
        let mut k: usize = start;
        while k < j
            invariant
                n == cv@.len(),
                start <= k <= j <= n,
                line@ == cv@.subrange(start as int, k as int),
            decreases j - k,
        {
            line.push(cv[k]);
            assert(line@ =~= cv@.subrange(start as int, k + 1 as int));
            k += 1;
        }
        let trimmed = trim_chars(&line);
        let ghost r0 = entries_model(r@);
        if trimmed.len() > 0 {
            let e = (string_from_chars(&trimmed), Option::Some(String::from_str(source_name)));
            proof {
                lemma_entries_push(r@, e);
            }
            r.push(e);
            assert(entries_model(r@) =~= r0 + seq![
                (trim_seq(cv@.subrange(start as int, j as int)), Option::Some(source_name@)),
            ]);
        }
        assert(import_from(contents@, source_name@, start as int) == (if trim_seq(
            cv@.subrange(start as int, j as int),
        ).len() > 0 {
            seq![(trim_seq(cv@.subrange(start as int, j as int)), Option::Some(source_name@))]
                + import_from(contents@, source_name@, j + 1)
        } else {
            import_from(contents@, source_name@, j + 1)
        }));
        if j < n {
            i = j + 1;
        } else {
            i = n;
            assert(import_from(contents@, source_name@, n as int) =~= import_from(
                contents@,
                source_name@,
                n + 1,
            ));
        }
        assert(entries_model(r@) + import_from(contents@, source_name@, i as int) =~= r0
            + import_from(contents@, source_name@, start as int));
    }
    proof {
        if i as int <= contents@.len() {
            assert(import_from(contents@, source_name@, i as int) =~= Seq::<
                (Seq<char>, Option<Seq<char>>),
            >::empty());
        } else {
            assert(import_from(contents@, source_name@, i as int) =~= Seq::<
                (Seq<char>, Option<Seq<char>>),
            >::empty());
        }
        assert(entries_model(r@) =~= entries_model(r@) + Seq::<
            (Seq<char>, Option<Seq<char>>),
        >::empty());
    }
    r
}

/// The export image of a row list: each text followed by one line
/// break, from position `i` on.
pub open spec fn joined_from(rows: Seq<PromptModel>, i: int) -> Seq<char>
    decreases rows.len() - i,
{
    if i < 0 || i >= rows.len() {
        Seq::empty()
    } else {
        rows[i].text + seq!['\n'] + joined_from(rows, i + 1)
    }
}

/// The export image of a whole row list, in its given order.
pub open spec fn joined_lines(rows: Seq<PromptModel>) -> Seq<char> {
    joined_from(rows, 0)
}

/// Render a list of prompts as an export text: one line per prompt, in
/// the list's order, each line ended by a line break, no header and no
/// escaping.
pub fn export_lines(prompts: &Vec<Prompt>) -> (r: String)
    ensures
        r@ == joined_lines(row_views(prompts@)),
{
    let ghost rows = row_views(prompts@);
    let mut r = String::new();
    let mut i: usize = 0;
    proof {
        reveal_strlit("\n");
    }
    assert(("\n")@ =~= seq!['\n']);
    assert(r@ + joined_from(rows, 0) =~= joined_from(rows, 0));
    while i < prompts.len()
        invariant
            rows == row_views(prompts@),
            prompts@.len() == rows.len(),
            i <= rows.len(),
            ("\n")@ == seq!['\n'],
            joined_lines(rows) == r@ + joined_from(rows, i as int),
        decreases rows.len() - i,
    {
        let ghost r0 = r@;
        r.append(prompts[i].text.as_str());
        r.append("\n");
        assert(r@ =~= r0 + (rows[i as int].text + seq!['\n']));
        assert(joined_from(rows, i as int) == rows[i as int].text + seq!['\n'] + joined_from(
            rows,
            i + 1,
        ));
        assert(r0 + joined_from(rows, i as int) =~= r@ + joined_from(rows, i + 1));
        i += 1;
    }
    assert(joined_from(rows, rows.len() as int) =~= Seq::<char>::empty());
    assert(r@ =~= r@ + joined_from(rows, rows.len() as int));
    r
}

} // verus!
