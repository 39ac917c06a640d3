//! Character-level groundwork: case folding, whitespace, and the
//! tokenizer that turns a text into its set of distinct lower-cased words.

use vstd::prelude::*;
use vstd::string::StrSliceExecFns;

verus! {

/// Case folding used throughout the engine: letters in the ASCII range
/// 'A'..'Z' map to their lower-case form, every other character is kept.
pub open spec fn fold_char(c: char) -> char {
    if 'A' <= c && c <= 'Z' {
        (((c as u8) + 32) as char)
    } else {
        c
    }
}

/// Pointwise case folding of a whole text.
pub open spec fn fold_seq(s: Seq<char>) -> Seq<char> {
    Seq::new(s.len(), |i: int| fold_char(s[i]))
}

/// The whitespace characters the tokenizer splits on.
pub open spec fn is_space(c: char) -> bool {
    c == ' ' || c == '\t' || c == '\n' || c == '\r' || c == '\u{b}' || c == '\u{c}'
}

pub fn fold_char_exec(c: char) -> (r: char)
    ensures
        r == fold_char(c),
{
    if 'A' <= c && c <= 'Z' {
        ((c as u8) + 32) as char
    } else {
        c
    }
}

pub fn is_space_exec(c: char) -> (r: bool)
    ensures
        r == is_space(c),
{
    c == ' ' || c == '\t' || c == '\n' || c == '\r' || c == '\u{b}' || c == '\u{c}'
}

/// Index of the first whitespace character at or after `i` (or the end of
/// the text): the end of the word starting at `i`.
pub open spec fn word_end(s: Seq<char>, i: int) -> int
    decreases s.len() - i,
{
    if i < 0 || i >= s.len() || is_space(s[i]) {
        i
    } else {
        word_end(s, i + 1)
    }
}

pub proof fn lemma_word_end(s: Seq<char>, i: int)
    requires
        0 <= i <= s.len(),
    ensures
        i <= word_end(s, i) <= s.len(),
        forall|k: int| i <= k < word_end(s, i) ==> !is_space(s[k]),
        word_end(s, i) < s.len() ==> is_space(s[word_end(s, i)]),
        i < s.len() && !is_space(s[i]) ==> word_end(s, i) > i,
    decreases s.len() - i,
{
    if i < s.len() && !is_space(s[i]) {
        lemma_word_end(s, i + 1);
    }
}

#[via_fn]
proof fn words_from_decreases(s: Seq<char>, i: int) {
    if 0 <= i < s.len() && !is_space(s[i]) {
        lemma_word_end(s, i);
    }
}

/// The whitespace-separated words of `s` from position `i` on, in order.
pub open spec fn words_from(s: Seq<char>, i: int) -> Seq<Seq<char>>
    decreases s.len() - i,
    via words_from_decreases
{
    if i < 0 || i >= s.len() {
        Seq::empty()
    } else if is_space(s[i]) {
        words_from(s, i + 1)
    } else {
        seq![s.subrange(i, word_end(s, i))] + words_from(s, word_end(s, i))
    }
}

/// The set of distinct lower-cased words of a text: the token set that
/// lexical similarity is measured over.
pub open spec fn token_set(s: Seq<char>) -> Set<Seq<char>> {
    words_from(fold_seq(s), 0).to_set()
}

/// The views of a list of owned words.
pub open spec fn views_of(ts: Seq<Vec<char>>) -> Seq<Seq<char>> {
    ts.map_values(|t: Vec<char>| t@)
}

/// Appending a fresh element keeps a sequence free of duplicates.
pub proof fn lemma_no_dup_push<A>(s: Seq<A>, x: A)
    requires
        s.no_duplicates(),
        !s.contains(x),
    ensures
        s.push(x).no_duplicates(),
{
    assert forall|i: int, j: int|
        0 <= i < s.push(x).len() && 0 <= j < s.push(x).len() && i != j implies s.push(x)[i]
        != s.push(x)[j] by {
        if i < s.len() && j == s.len() {
            assert(s.contains(s[i]));
        }
        if j < s.len() && i == s.len() {
            assert(s.contains(s[j]));
        }
    }
}

pub proof fn lemma_views_push(ts: Seq<Vec<char>>, t: Vec<char>)
    ensures
        views_of(ts.push(t)) == views_of(ts).push(t@),
{
    assert(views_of(ts.push(t)) =~= views_of(ts).push(t@));
}

/// The characters of a string slice, as an owned vector.
pub fn chars_of(s: &str) -> (r: Vec<char>)
    ensures
        r@ == s@,
{
    let n = s.unicode_len();
    let mut r: Vec<char> = Vec::new();
    let mut i: usize = 0;
    while i < n
        invariant
            n == s@.len(),
            i <= n,
            r@ == s@.subrange(0, i as int),
        decreases n - i,
    {
        r.push(s.get_char(i));
        assert(r@ =~= s@.subrange(0, i + 1 as int));
        i += 1;
    }
    assert(r@ =~= s@);
    r
}

/// An owned copy of a character vector.
pub fn copy_chars(v: &Vec<char>) -> (r: Vec<char>)
    ensures
        r@ == v@,
{
    let mut r: Vec<char> = Vec::new();
    let mut i: usize = 0;
    while i < v.len()
        invariant
            i <= v@.len(),
            r@ == v@.subrange(0, i as int),
        decreases v@.len() - i,
    {
        r.push(v[i]);
        assert(r@ =~= v@.subrange(0, i + 1 as int));
        i += 1;
    }
    assert(r@ =~= v@);
    r
}

/// Case folding of a whole text.
pub fn fold_chars(v: &Vec<char>) -> (r: Vec<char>)
    ensures
        r@ == fold_seq(v@),
{
    let mut r: Vec<char> = Vec::new();
    let mut i: usize = 0;
    while i < v.len()
        invariant
            i <= v@.len(),
            r@.len() == i,
            forall|k: int| 0 <= k < i ==> r@[k] == fold_char(v@[k]),
        decreases v@.len() - i,
    {
        r.push(fold_char_exec(v[i]));
        i += 1;
    }
    assert(r@ =~= fold_seq(v@));
    r
}

/// Character-for-character equality of two owned words.
pub fn eq_chars(a: &Vec<char>, b: &Vec<char>) -> (r: bool)
    ensures
        r == (a@ == b@),
{
    if a.len() != b.len() {
        return false;
    }
    let mut i: usize = 0;
    while i < a.len()
        invariant
            a@.len() == b@.len(),
            i <= a@.len(),
            forall|k: int| 0 <= k < i ==> a@[k] == b@[k],
        decreases a@.len() - i,
    {
        if a[i] != b[i] {
            return false;
        }
        i += 1;
    }
    assert(a@ =~= b@);
    true
}

/// Whether some word of `ts` equals `w`.
pub fn contains_token(ts: &Vec<Vec<char>>, w: &Vec<char>) -> (r: bool)
    ensures
        r == views_of(ts@).contains(w@),
{
    let mut i: usize = 0;
    while i < ts.len()
        invariant
            i <= ts@.len(),
            forall|k: int| 0 <= k < i ==> ts@[k]@ != w@,
        decreases ts@.len() - i,
    {
        if eq_chars(&ts[i], w) {
            assert(views_of(ts@)[i as int] == w@);
            return true;
        }
        i += 1;
    }
    assert(forall|k: int| 0 <= k < views_of(ts@).len() ==> views_of(ts@)[k] != w@);
    false
}

/// The whitespace-separated words of a text, in order, with repetitions.
pub fn split_words(v: &Vec<char>) -> (r: Vec<Vec<char>>)
    ensures
        views_of(r@) == words_from(v@, 0),
{
    let n = v.len();
    let mut r: Vec<Vec<char>> = Vec::new();
    let mut i: usize = 0;
    while i < n
        invariant
            n == v@.len(),
            i <= n,
            words_from(v@, 0) == views_of(r@) + words_from(v@, i as int),
        decreases n - i,
    {
        if is_space_exec(v[i]) {
            i += 1;
        } else {
            let start = i;
            let mut j: usize = i;
            while j < n && !is_space_exec(v[j])
                invariant
                    n == v@.len(),
                    start <= j <= n,
                    forall|k: int| start <= k < j ==> !is_space(v@[k]),
                    word_end(v@, start as int) == word_end(v@, j as int),
                decreases n - j,
            {
                j += 1;
            }
            proof {
                lemma_word_end(v@, start as int);
            }
            assert(word_end(v@, start as int) == j);
            let mut w: Vec<char> = Vec::new();
            let mut k: usize = start;
            while k < j
                invariant
                    n == v@.len(),
                    start <= k <= j <= n,
                    w@ == v@.subrange(start as int, k as int),
                decreases j - k,
            {
                w.push(v[k]);
                assert(w@ =~= v@.subrange(start as int, k + 1 as int));
                k += 1;
            }
            proof {
                lemma_views_push(r@, w);
            }
            assert(words_from(v@, start as int) == seq![w@] + words_from(v@, j as int));
            assert(views_of(r@) + words_from(v@, start as int) =~= views_of(r@).push(w@)
                + words_from(v@, j as int));
            r.push(w);
            i = j;
        }
    }
    assert(words_from(v@, n as int) =~= Seq::<Seq<char>>::empty());
    assert(views_of(r@) =~= views_of(r@) + words_from(v@, n as int));
    r
}

/// The distinct words of `ws`, keeping the first occurrence of each.
pub fn dedup_tokens(ws: &Vec<Vec<char>>) -> (r: Vec<Vec<char>>)
    ensures
        views_of(r@).no_duplicates(),
        views_of(r@).to_set() == views_of(ws@).to_set(),
        r@.len() == views_of(ws@).to_set().len(),
{
    let mut r: Vec<Vec<char>> = Vec::new();
    let mut i: usize = 0;
    while i < ws.len()
        invariant
            i <= ws@.len(),
            views_of(r@).no_duplicates(),
            views_of(r@).to_set() == views_of(ws@.take(i as int)).to_set(),
        decreases ws@.len() - i,
    {
        let ghost prev = views_of(r@);
        let ghost prev_take = views_of(ws@.take(i as int));
        assert(ws@.take(i + 1 as int) =~= ws@.take(i as int).push(ws@[i as int]));
        assert(views_of(ws@.take(i + 1 as int)) =~= prev_take.push(ws@[i as int]@));
        proof {
            prev_take.lemma_push_to_set_commute(ws@[i as int]@);
        }
        if !contains_token(&r, &ws[i]) {
            let w = copy_chars(&ws[i]);
            proof {
                lemma_views_push(r@, w);
            }
            r.push(w);
            assert(views_of(r@) =~= prev.push(ws@[i as int]@));
            proof {
                prev.lemma_push_to_set_commute(ws@[i as int]@);
            }
        } else {
            assert(prev.to_set().insert(ws@[i as int]@) =~= prev.to_set());
        }
        i += 1;
    }
    assert(ws@.take(ws@.len() as int) =~= ws@);
    proof {
        views_of(r@).unique_seq_to_set();
    }
    r
}

/// A match of the pattern `f` at position `i` of the text `t`; both sides
/// are case folded first when `ci` is set.
pub open spec fn match_at(t: Seq<char>, f: Seq<char>, i: int, ci: bool) -> bool {
    &&& 0 <= i
    &&& i + f.len() <= t.len()
    &&& if ci {
        fold_seq(t.subrange(i, i + f.len())) == fold_seq(f)
    } else {
        t.subrange(i, i + f.len()) == f
    }
}

/// Whether the pattern `f` occurs anywhere in the text `t`.
pub open spec fn contains_match(t: Seq<char>, f: Seq<char>, ci: bool) -> bool {
    exists|i: int| match_at(t, f, i, ci)
}

/// `t` with every non-overlapping occurrence of `f`, scanned from the
/// left, replaced by `r`; occurrences are found case-folded when `ci` is
/// set, and the replacement inserted is always the literal `r`. An empty
/// pattern matches nothing and leaves `t` unchanged.
pub open spec fn replace_seq(t: Seq<char>, f: Seq<char>, r: Seq<char>, ci: bool) -> Seq<char>
    decreases t.len(),
{
    if f.len() == 0 || t.len() < f.len() {
        t
    } else if match_at(t, f, 0, ci) {
        r + replace_seq(t.subrange(f.len() as int, t.len() as int), f, r, ci)
    } else {
        seq![t[0]] + replace_seq(t.subrange(1, t.len() as int), f, r, ci)
    }
}

/// A match at position `i` of `t` is a match at position 0 of the tail of
/// `t` starting at `i`.
pub proof fn lemma_match_at_shift(t: Seq<char>, f: Seq<char>, i: int, ci: bool)
    requires
        0 <= i <= t.len(),
    ensures
        match_at(t, f, i, ci) == match_at(t.subrange(i, t.len() as int), f, 0, ci),
{
    if i + f.len() <= t.len() {
        assert(t.subrange(i, t.len() as int).subrange(0, f.len() as int) =~= t.subrange(
            i,
            i + f.len(),
        ));
    }
}

/// Pointwise comparison of the window of `t` at `i` against `f`.
pub fn match_at_exec(t: &Vec<char>, f: &Vec<char>, i: usize, ci: bool) -> (r: bool)
    requires
        i + f@.len() <= t@.len(),
    ensures
        r == match_at(t@, f@, i as int, ci),
{
    let ghost win = t@.subrange(i as int, i + f@.len());
    let n = t.len();
    let mut k: usize = 0;
    while k < f.len()
        invariant
            n == t@.len(),
            i + f@.len() <= t@.len(),
            k <= f@.len(),
            win == t@.subrange(i as int, i + f@.len()),
            forall|m: int|
                0 <= m < k ==> (if ci {
                    fold_char(t@[i + m]) == fold_char(f@[m])
                } else {
                    t@[i + m] == f@[m]
                }),
        decreases f@.len() - k,
    {
        let tc = if ci {
            fold_char_exec(t[i + k])
        } else {
            t[i + k]
        };
        let fc = if ci {
            fold_char_exec(f[k])
        } else {
            f[k]
        };
        if tc != fc {
            assert(!match_at(t@, f@, i as int, ci)) by {
                if match_at(t@, f@, i as int, ci) {
                    if ci {
                        assert(fold_seq(win)[k as int] == fold_seq(f@)[k as int]);
                    } else {
                        assert(win[k as int] == f@[k as int]);
                    }
                }
            }
            return false;
        }
        k += 1;
    }
    if ci {
        assert(fold_seq(win) =~= fold_seq(f@));
    } else {
        assert(win =~= f@);
    }
    true
}

/// The position of the leftmost occurrence of `f` in `t`, if any.
pub fn find_match(t: &Vec<char>, f: &Vec<char>, ci: bool) -> (r: Option<usize>)
    ensures
        match r {
            Some(i) => match_at(t@, f@, i as int, ci) && forall|k: int|
                0 <= k < i ==> !match_at(t@, f@, k, ci),
            None => !contains_match(t@, f@, ci),
        },
{
    if f.len() > t.len() {
        assert(forall|k: int| !match_at(t@, f@, k, ci));
        return None;
    }
    if f.len() == 0 {
        assert(t@.subrange(0, 0) =~= f@);
        assert(fold_seq(t@.subrange(0, 0)) =~= fold_seq(f@));
        assert(match_at(t@, f@, 0, ci));
        return Some(0);
    }
    let n = t.len();
    let last = n - f.len();
    let mut i: usize = 0;
    while i <= last
        invariant
            n == t@.len(),
            1 <= f@.len() <= t@.len(),
            last == t@.len() - f@.len(),
            i <= last + 1,
            forall|k: int| 0 <= k < i ==> !match_at(t@, f@, k, ci),
        decreases last + 1 - i,
    {
        if match_at_exec(t, f, i, ci) {
            return Some(i);
        }
        i += 1;
    }
    assert(forall|k: int| !match_at(t@, f@, k, ci));
    None
}

/// Whether `f` occurs in `t`, scanning case-folded when `ci` is set.
pub fn contains_exec(t: &Vec<char>, f: &Vec<char>, ci: bool) -> (r: bool)
    ensures
        r == contains_match(t@, f@, ci),
{
    match find_match(t, f, ci) {
        Some(_) => true,
        None => false,
    }
}

/// Replacement of all non-overlapping occurrences, scanned from the left.
pub fn replace_chars(t: &Vec<char>, f: &Vec<char>, rep: &Vec<char>, ci: bool) -> (out: Vec<char>)
    ensures
        out@ == replace_seq(t@, f@, rep@, ci),
{
    if f.len() == 0 {
        return copy_chars(t);
    }
    let mut out: Vec<char> = Vec::new();
    let mut i: usize = 0;
    assert(t@.subrange(0, t@.len() as int) =~= t@);
    assert(Seq::<char>::empty() + replace_seq(t@, f@, rep@, ci) =~= replace_seq(
        t@,
        f@,
        rep@,
        ci,
    ));
    while i < t.len()
        invariant
            f@.len() >= 1,
            i <= t@.len(),
            replace_seq(t@, f@, rep@, ci) == out@ + replace_seq(
                t@.subrange(i as int, t@.len() as int),
                f@,
                rep@,
                ci,
            ),
        decreases t@.len() - i,
    {
        let ghost rem = t@.subrange(i as int, t@.len() as int);
        let ghost out0 = out@;
        if f.len() <= t.len() - i && match_at_exec(t, f, i, ci) {
            proof {
                lemma_match_at_shift(t@, f@, i as int, ci);
            }
            let mut k: usize = 0;
            while k < rep.len()
                invariant
                    k <= rep@.len(),
                    out@ == out0 + rep@.subrange(0, k as int),
                decreases rep@.len() - k,
            {
                out.push(rep[k]);
                assert(out@ =~= out0 + rep@.subrange(0, k + 1 as int));
                k += 1;
            }
            assert(rep@.subrange(0, rep@.len() as int) =~= rep@);
            i += f.len();
            assert(rem.subrange(f@.len() as int, rem.len() as int) =~= t@.subrange(
                i as int,
                t@.len() as int,
            ));
            assert(replace_seq(rem, f@, rep@, ci) == rep@ + replace_seq(
                t@.subrange(i as int, t@.len() as int),
                f@,
                rep@,
                ci,
            ));
            assert(out0 + replace_seq(rem, f@, rep@, ci) =~= out@ + replace_seq(
                t@.subrange(i as int, t@.len() as int),
                f@,
                rep@,
                ci,
            ));
        } else {
            proof {
                if rem.len() >= f@.len() {
                    lemma_match_at_shift(t@, f@, i as int, ci);
                }
            }
            out.push(t[i]);
            i += 1;
            assert(rem.subrange(1, rem.len() as int) =~= t@.subrange(i as int, t@.len() as int));
            proof {
                if rem.len() < f@.len() {
                    assert(rem =~= seq![rem[0]] + rem.subrange(1, rem.len() as int));
                    assert(replace_seq(rem.subrange(1, rem.len() as int), f@, rep@, ci)
                        == rem.subrange(1, rem.len() as int));
                }
            }
            assert(replace_seq(rem, f@, rep@, ci) == seq![rem[0]] + replace_seq(
                t@.subrange(i as int, t@.len() as int),
                f@,
                rep@,
                ci,
            ));
            assert(out0 + replace_seq(rem, f@, rep@, ci) =~= out@ + replace_seq(
                t@.subrange(i as int, t@.len() as int),
                f@,
                rep@,
                ci,
            ));
        }
    }
    assert(t@.subrange(t@.len() as int, t@.len() as int) =~= Seq::<char>::empty());
    assert(replace_seq(Seq::<char>::empty(), f@, rep@, ci) =~= Seq::<char>::empty());
    assert(out@ =~= out@ + Seq::<char>::empty());
    out
}

/// Index of the first non-whitespace character at or after `i`.
pub open spec fn skip_spaces(s: Seq<char>, i: int) -> int
    decreases s.len() - i,
{
    if i < 0 || i >= s.len() || !is_space(s[i]) {
        i
    } else {
        skip_spaces(s, i + 1)
    }
}

/// Exclusive end of the text once trailing whitespace before `j` is gone;
/// never retreats past the floor `a`.
pub open spec fn trim_back(s: Seq<char>, a: int, j: int) -> int
    decreases j,
{
    if j <= a || j <= 0 || j > s.len() || !is_space(s[j - 1]) {
        j
    } else {
        trim_back(s, a, j - 1)
    }
}

/// `s` without leading and trailing whitespace.
pub open spec fn trim_seq(s: Seq<char>) -> Seq<char> {
    s.subrange(skip_spaces(s, 0), trim_back(s, skip_spaces(s, 0), s.len() as int))
}

/// `v` without leading and trailing whitespace.
pub fn trim_chars(v: &Vec<char>) -> (r: Vec<char>)
    ensures
        r@ == trim_seq(v@),
{
    let n = v.len();
    let mut a: usize = 0;
    while a < n && is_space_exec(v[a])
        invariant
            n == v@.len(),
            a <= n,
            skip_spaces(v@, 0) == skip_spaces(v@, a as int),
        decreases n - a,
    {
        a += 1;
    }
    assert(skip_spaces(v@, 0) == a);
    let mut b: usize = n;
    while b > a && is_space_exec(v[b - 1])
        invariant
            n == v@.len(),
            a <= b <= n,
            trim_back(v@, a as int, n as int) == trim_back(v@, a as int, b as int),
        decreases b,
    {
        b -= 1;
    }
    assert(trim_back(v@, a as int, n as int) == b);
    let mut r: Vec<char> = Vec::new();
    let mut k: usize = a;
    while k < b
        invariant
            n == v@.len(),
            a <= k <= b <= n,
            r@ == v@.subrange(a as int, k as int),
        decreases b - k,
    {
        r.push(v[k]);
        assert(r@ =~= v@.subrange(a as int, k + 1 as int));
        k += 1;
    }
    assert(r@ =~= trim_seq(v@));
    r
}

/// Relies on `String`'s `FromIterator` over `char`: collecting an
/// iterator of characters yields a string holding exactly those
/// characters, in order.
#[verifier::external_body]
pub fn string_from_chars(v: &Vec<char>) -> (r: String)
    ensures
        r@ == v@,
{
    v.iter().collect()
}

/// Character-for-character equality of two string slices.
pub fn str_eq(a: &str, b: &str) -> (r: bool)
    ensures
        r == (a@ == b@),
{
    let va = chars_of(a);
    let vb = chars_of(b);
    eq_chars(&va, &vb)
}

/// The distinct lower-cased words of a string: the executable tokenizer.
pub fn distinct_tokens(s: &str) -> (r: Vec<Vec<char>>)
    ensures
        views_of(r@).no_duplicates(),
        views_of(r@).to_set() == token_set(s@),
        r@.len() == token_set(s@).len(),
{
    let cs = chars_of(s);
    let folded = fold_chars(&cs);
    let ws = split_words(&folded);
    dedup_tokens(&ws)
}

} // verus!
