use prompt_dedup::similarity::{
    find_similar_pairs, group_similar_prompts, jaccard_similarity, Similarity,
};
use prompt_dedup::text::distinct_tokens;

fn chars(s: &str) -> Vec<char> {
    s.chars().collect()
}

fn half() -> Similarity {
    Similarity { num: 1, den: 2 }
}

#[test]
fn tokenizer_lowercases_and_dedups() {
    let mut toks = distinct_tokens("The the THE cat");
    toks.sort();
    assert_eq!(toks, vec![chars("cat"), chars("the")]);
}

#[test]
fn tokenizer_splits_on_whitespace() {
    let mut toks = distinct_tokens("  a\tb\nc  a ");
    toks.sort();
    assert_eq!(toks, vec![chars("a"), chars("b"), chars("c")]);
}

#[test]
fn jaccard_blank_strings_are_identical() {
    let s = jaccard_similarity("", "");
    assert_eq!(s, Similarity { num: 1, den: 1 });
    let t = jaccard_similarity("   ", "\t\n");
    assert_eq!(t, Similarity { num: 1, den: 1 });
}

#[test]
fn jaccard_disjoint_is_zero() {
    let s = jaccard_similarity("a b", "c d");
    assert_eq!(s.num, 0);
    assert_eq!(s.den, 4);
}

#[test]
fn jaccard_identical_is_one() {
    let s = jaccard_similarity("a b", "a b");
    assert_eq!(s, Similarity { num: 2, den: 2 });
}

#[test]
fn jaccard_partial_overlap() {
    let s = jaccard_similarity("a b c", "a b");
    assert_eq!(s, Similarity { num: 2, den: 3 });
}

#[test]
fn jaccard_is_symmetric_on_samples() {
    let cases = [("a b c", "b c d"), ("", "x"), ("Foo BAR", "foo baz"), ("one", "one two")];
    for (a, b) in cases {
        let ab = jaccard_similarity(a, b);
        let ba = jaccard_similarity(b, a);
        assert_eq!(ab, ba);
        assert!(ab.num <= ab.den);
        assert!(ab.den >= 1);
    }
}

#[test]
fn jaccard_case_folds() {
    let s = jaccard_similarity("Hello World", "hello world");
    assert_eq!(s, Similarity { num: 2, den: 2 });
}

#[test]
fn pairs_of_worked_corpus() {
    let prompts = vec![
        (1i64, String::from("Write a poem about the ocean")),
        (2i64, String::from("Write a poem about the sea")),
        (3i64, String::from("Translate to French")),
    ];
    let pairs = find_similar_pairs(&prompts, half());
    assert_eq!(pairs.len(), 1);
    assert_eq!(pairs[0].id_a, 1);
    assert_eq!(pairs[0].id_b, 2);
    assert_eq!(pairs[0].text_a, "Write a poem about the ocean");
    assert_eq!(pairs[0].text_b, "Write a poem about the sea");
    // tokens {write,a,poem,about,the,ocean} vs {write,a,poem,about,the,sea}:
    // five shared over seven distinct
    assert_eq!(pairs[0].similarity, Similarity { num: 5, den: 7 });
}

#[test]
fn pairs_are_sorted_by_similarity_descending() {
    let prompts = vec![
        (1i64, String::from("a b c d")),
        (2i64, String::from("a b c d e")),
        (3i64, String::from("a b x y")),
    ];
    let pairs = find_similar_pairs(&prompts, Similarity { num: 1, den: 4 });
    assert_eq!(pairs.len(), 3);
    for w in pairs.windows(2) {
        let hi = &w[0].similarity;
        let lo = &w[1].similarity;
        assert!((hi.num as u128) * (lo.den as u128) >= (lo.num as u128) * (hi.den as u128));
    }
    assert!(pairs.len() <= 3 * 2 / 2);
}

#[test]
fn pairs_all_reach_threshold() {
    let prompts = vec![
        (1i64, String::from("alpha beta")),
        (2i64, String::from("alpha beta")),
        (3i64, String::from("gamma delta")),
    ];
    let thr = Similarity { num: 9, den: 10 };
    let pairs = find_similar_pairs(&prompts, thr);
    assert_eq!(pairs.len(), 1);
    assert_eq!((pairs[0].id_a, pairs[0].id_b), (1, 2));
}

#[test]
fn groups_of_worked_corpus() {
    let prompts = vec![
        (1i64, String::from("Write a poem about the ocean")),
        (2i64, String::from("Write a poem about the sea")),
        (3i64, String::from("Translate to French")),
    ];
    let groups = group_similar_prompts(&prompts, half());
    assert_eq!(groups.len(), 1);
    assert_eq!(groups[0].len(), 2);
    let mut ids: Vec<i64> = groups[0].iter().map(|e| e.0).collect();
    ids.sort();
    assert_eq!(ids, vec![1, 2]);
}

#[test]
fn pair_exactly_at_threshold_is_kept() {
    let prompts = vec![
        (1i64, String::from("a b c")),
        (2i64, String::from("a b d")),
    ];
    // two shared tokens over four distinct: exactly one half
    let pairs = find_similar_pairs(&prompts, half());
    assert_eq!(pairs.len(), 1);
    assert_eq!(pairs[0].similarity, Similarity { num: 2, den: 4 });
}

#[test]
fn group_records_discovery_edge_similarity() {
    let prompts = vec![
        (1i64, String::from("Write a poem about the ocean")),
        (2i64, String::from("Write a poem about the sea")),
    ];
    let groups = group_similar_prompts(&prompts, half());
    assert_eq!(groups.len(), 1);
    // the traversal start carries the score 1; its partner carries the
    // weight of the edge it was discovered over
    assert_eq!(groups[0][0].0, 1);
    assert_eq!(groups[0][0].2, Similarity { num: 1, den: 1 });
    assert_eq!(groups[0][1].0, 2);
    assert_eq!(groups[0][1].2, Similarity { num: 5, den: 7 });
}

#[test]
fn isolated_prompts_form_no_group() {
    let prompts = vec![
        (1i64, String::from("one two")),
        (2i64, String::from("three four")),
    ];
    let groups = group_similar_prompts(&prompts, half());
    assert!(groups.is_empty());
}

#[test]
fn transitive_chain_lands_in_one_group() {
    // 1 ~ 2 and 2 ~ 3 at the threshold, 4 is isolated
    let prompts = vec![
        (1i64, String::from("a b c")),
        (2i64, String::from("b c d")),
        (3i64, String::from("c d e")),
        (4i64, String::from("x y z")),
    ];
    let groups = group_similar_prompts(&prompts, half());
    assert_eq!(groups.len(), 1);
    let mut ids: Vec<i64> = groups[0].iter().map(|e| e.0).collect();
    ids.sort();
    assert_eq!(ids, vec![1, 2, 3]);
    // no id appears twice across groups
    let all: Vec<i64> = groups.iter().flatten().map(|e| e.0).collect();
    let mut dedup = all.clone();
    dedup.sort();
    dedup.dedup();
    assert_eq!(all.len(), dedup.len());
}
