use prompt_dedup::ingest::{export_lines, parse_prompts};
use prompt_dedup::replace::{apply_replacements, compute_preview};
use prompt_dedup::store::Database;

#[test]
fn case_sensitive_replace_round_trip() {
    let mut db = Database::new();
    let id = db.insert_prompt("foo foo baz", None);
    let previews = compute_preview(&db, "foo", "bar", true);
    assert_eq!(previews.len(), 1);
    assert_eq!(previews[0].id, id);
    assert_eq!(previews[0].original, "foo foo baz");
    assert_eq!(previews[0].replaced, "bar bar baz");
    let applied = apply_replacements(&mut db, previews);
    assert_eq!(applied, 1);
    assert_eq!(db.get_all()[0].text, "bar bar baz");
}

#[test]
fn case_insensitive_replace_inserts_literal_replacement() {
    let mut db = Database::new();
    db.insert_prompt("Foo FOO baz", None);
    let previews = compute_preview(&db, "foo", "X", false);
    assert_eq!(previews.len(), 1);
    assert_eq!(previews[0].replaced, "X X baz");
}

#[test]
fn case_sensitive_search_skips_other_cases() {
    let mut db = Database::new();
    db.insert_prompt("Foo bar", None);
    db.insert_prompt("foo bar", None);
    let previews = compute_preview(&db, "foo", "qux", true);
    assert_eq!(previews.len(), 1);
    assert_eq!(previews[0].original, "foo bar");
}

#[test]
fn empty_find_text_matches_nothing() {
    let mut db = Database::new();
    db.insert_prompt("anything", None);
    let previews = compute_preview(&db, "", "x", false);
    assert!(previews.is_empty());
}

#[test]
fn replacement_is_non_overlapping_left_to_right() {
    let mut db = Database::new();
    db.insert_prompt("aaa", None);
    let previews = compute_preview(&db, "aa", "b", true);
    assert_eq!(previews.len(), 1);
    assert_eq!(previews[0].replaced, "ba");
}

#[test]
fn apply_counts_previews_not_changes() {
    let mut db = Database::new();
    db.insert_prompt("one two", None);
    db.insert_prompt("two three", None);
    let previews = compute_preview(&db, "two", "2", true);
    assert_eq!(previews.len(), 2);
    let applied = apply_replacements(&mut db, previews);
    assert_eq!(applied, 2);
    let all = db.get_all();
    assert_eq!(all[0].text, "one 2");
    assert_eq!(all[1].text, "2 three");
}

#[test]
fn parse_trims_and_skips_blank_lines() {
    let entries = parse_prompts("  first  \n\n\tsecond\n   \nthird", "notes.txt");
    assert_eq!(entries.len(), 3);
    assert_eq!(entries[0].0, "first");
    assert_eq!(entries[1].0, "second");
    assert_eq!(entries[2].0, "third");
    for e in &entries {
        assert_eq!(e.1.as_deref(), Some("notes.txt"));
    }
}

#[test]
fn parse_of_blank_file_is_empty() {
    assert!(parse_prompts("", "f.txt").is_empty());
    assert!(parse_prompts("\n \n\t\n", "f.txt").is_empty());
}

#[test]
fn import_then_export_round_trips_clean_lines() {
    let mut db = Database::new();
    let entries = parse_prompts("alpha\nbeta\n\n  alpha  \n", "in.txt");
    let created = db.insert_prompts(&entries);
    // three surviving lines, one a duplicate of an earlier one
    assert_eq!(created, 2);
    let out = export_lines(&db.get_all());
    assert_eq!(out, "alpha\nbeta\n");
}

#[test]
fn export_keeps_view_order() {
    let mut db = Database::new();
    db.insert_prompt("Write a Poem", None);
    db.insert_prompt("translate", None);
    db.insert_prompt("POEMS ABOUT RAIN", None);
    let filtered = db.search("poem");
    let out = export_lines(&filtered);
    assert_eq!(out, "Write a Poem\nPOEMS ABOUT RAIN\n");
}
