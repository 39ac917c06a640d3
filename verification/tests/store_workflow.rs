use prompt_dedup::dedup::DedupController;
use prompt_dedup::similarity::Similarity;
use prompt_dedup::store::Database;

fn half() -> Similarity {
    Similarity { num: 1, den: 2 }
}

#[test]
fn inserting_same_text_twice_counts_once() {
    let mut db = Database::new();
    let id1 = db.insert_prompt("hello world", None);
    let id2 = db.insert_prompt("hello world", Some("again.txt"));
    assert_eq!(db.count(), 1);
    assert_eq!(id1, id2);
}

#[test]
fn insert_assigns_fresh_ascending_ids() {
    let mut db = Database::new();
    let a = db.insert_prompt("first", None);
    let b = db.insert_prompt("second", None);
    let c = db.insert_prompt("third", None);
    assert!(a < b && b < c);
    let all = db.get_all();
    assert_eq!(all.len(), 3);
    assert!(all[0].id < all[1].id && all[1].id < all[2].id);
    assert_eq!(all[0].text, "first");
}

#[test]
fn insert_many_returns_created_count() {
    let mut db = Database::new();
    db.insert_prompt("b", None);
    let batch = vec![
        (String::from("a"), Some(String::from("f.txt"))),
        (String::from("b"), Some(String::from("f.txt"))),
        (String::from("a"), Some(String::from("f.txt"))),
        (String::from("c"), None),
    ];
    // four entries, two of them duplicates when their turn comes
    let created = db.insert_prompts(&batch);
    assert_eq!(created, 2);
    assert_eq!(db.count(), 3);
}

#[test]
fn delete_absent_id_is_a_silent_noop() {
    let mut db = Database::new();
    db.insert_prompt("keep me", None);
    db.delete_prompt(99);
    assert_eq!(db.count(), 1);
    db.delete_prompt(1);
    assert_eq!(db.count(), 0);
}

#[test]
fn deleted_ids_are_never_reused() {
    let mut db = Database::new();
    let a = db.insert_prompt("one", None);
    db.delete_prompt(a);
    let b = db.insert_prompt("two", None);
    assert!(b > a);
}

#[test]
fn update_text_keeps_id_and_source() {
    let mut db = Database::new();
    let id = db.insert_prompt("old text", Some("src.txt"));
    assert!(db.update_prompt(id, "new text"));
    assert!(!db.update_prompt(id + 1, "whatever"));
    let all = db.get_all();
    assert_eq!(all.len(), 1);
    assert_eq!(all[0].id, id);
    assert_eq!(all[0].text, "new text");
    assert_eq!(all[0].source_file.as_deref(), Some("src.txt"));
}

#[test]
fn search_is_case_insensitive_substring() {
    let mut db = Database::new();
    db.insert_prompt("Write a Poem", None);
    db.insert_prompt("translate to french", None);
    db.insert_prompt("POEMS ABOUT RAIN", None);
    let hits = db.search("poem");
    assert_eq!(hits.len(), 2);
    assert_eq!(hits[0].text, "Write a Poem");
    assert_eq!(hits[1].text, "POEMS ABOUT RAIN");
    let none = db.search("ocean");
    assert!(none.is_empty());
    let all = db.search("");
    assert_eq!(all.len(), 3);
}

fn seeded_db() -> Database {
    let mut db = Database::new();
    db.insert_prompt("Write a poem about the ocean", None);
    db.insert_prompt("Write a poem about the sea", None);
    db.insert_prompt("Write a poem about the deep sea", None);
    db.insert_prompt("Translate to French", None);
    db
}

#[test]
fn scan_fills_working_list_and_navigation_clamps() {
    let db = seeded_db();
    let mut ctl = DedupController::new();
    ctl.scan(&db, half());
    let n = ctl.pair_count();
    assert_eq!(n, 3);
    assert_eq!(ctl.current_index(), 0);
    ctl.previous();
    assert_eq!(ctl.current_index(), 0);
    ctl.next();
    ctl.next();
    assert_eq!(ctl.current_index(), 2);
    ctl.next();
    assert_eq!(ctl.current_index(), 2);
    ctl.previous();
    assert_eq!(ctl.current_index(), 1);
    assert!(ctl.current_pair().is_some());
}

#[test]
fn delete_side_cascades_through_working_list() {
    let mut db = seeded_db();
    let mut ctl = DedupController::new();
    ctl.scan(&db, half());
    assert_eq!(ctl.pair_count(), 3);
    // prompt 2 sits in every pair of this corpus but one
    ctl.delete_side(&mut db, 2);
    // no surviving pair references the deleted id
    assert_eq!(ctl.pair_count(), 1);
    let p = ctl.current_pair().unwrap();
    assert!(p.id_a != 2 && p.id_b != 2);
    // and the store no longer holds it
    assert!(db.get_all().iter().all(|r| r.id != 2));
    assert_eq!(db.count(), 3);
}

#[test]
fn delete_side_clamps_index_when_tail_shrinks() {
    let mut db = seeded_db();
    let mut ctl = DedupController::new();
    ctl.scan(&db, half());
    ctl.next();
    ctl.next();
    assert_eq!(ctl.current_index(), 2);
    ctl.delete_side(&mut db, 2);
    assert_eq!(ctl.pair_count(), 1);
    assert_eq!(ctl.current_index(), 0);
}

#[test]
fn remove_all_duplicates_empties_list_and_counts_distinct() {
    let mut db = seeded_db();
    let mut ctl = DedupController::new();
    ctl.scan(&db, half());
    // distinct second-side ids across the working list
    let before = db.count();
    let removed = ctl.remove_all_duplicates(&mut db);
    assert_eq!(ctl.pair_count(), 0);
    assert_eq!(ctl.current_index(), 0);
    assert_eq!(before - db.count(), removed);
    // pairs were (1,2) (1,3) (2,3) at this threshold: distinct id_b = {2, 3}
    assert_eq!(removed, 2);
    assert_eq!(db.count(), 2);
}
