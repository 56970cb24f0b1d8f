use cat_history::store::Database;
use cat_history::ClipboardError;

fn ids(items: &[cat_history::store::ClipboardItem]) -> Vec<i64> {
    items.iter().map(|it| it.id).collect()
}

#[test]
fn items_come_back_newest_first() {
    let mut db = Database::new();
    let a = db.add_item_at("text", "oldest", "oldest", 10);
    let b = db.add_item_at("text", "middle", "middle", 20);
    let c = db.add_item_at("text", "newest", "newest", 30);
    let items = db.get_items(10, 0).unwrap();
    assert_eq!(ids(&items), vec![c, b, a]);
    assert_eq!(items[0].content, "newest");
    assert!(!items[0].is_favorite);
    assert_eq!(items[0].created_at, 30);
}

#[test]
fn pagination_skips_and_limits() {
    let mut db = Database::new();
    for t in 0..5 {
        db.add_item_at("text", &format!("c{}", t), "p", t);
    }
    let page = db.get_items(2, 1).unwrap();
    assert_eq!(page.len(), 2);
    assert_eq!(page[0].content, "c3");
    assert_eq!(page[1].content, "c2");
    assert_eq!(db.get_items(10, 5).unwrap().len(), 0);
    assert_eq!(db.get_items(-1, 0).unwrap().len(), 0);
}

#[test]
fn equal_timestamps_order_by_id() {
    let mut db = Database::new();
    let a = db.add_item_at("text", "first", "p", 50);
    let b = db.add_item_at("text", "second", "p", 50);
    let items = db.get_items(10, 0).unwrap();
    assert_eq!(ids(&items), vec![b, a]);
}

#[test]
fn three_items_limit_two_drops_the_oldest() {
    let mut db = Database::new();
    let a = db.add_item_at("text", "t1", "p", 1);
    let b = db.add_item_at("text", "t2", "p", 2);
    let c = db.add_item_at("text", "t3", "p", 3);
    db.maintain_limit(2).unwrap();
    let items = db.get_items(10, 0).unwrap();
    assert_eq!(ids(&items), vec![c, b]);
    let _ = a;
}

#[test]
fn eviction_prefers_non_favorites_over_an_older_favorite() {
    // t1 is favorited; the one item of overflow comes out of the
    // non-favorite pool, so the oldest non-favorite t2 leaves
    let mut db = Database::new();
    let a = db.add_item_at("text", "t1", "p", 1);
    let b = db.add_item_at("text", "t2", "p", 2);
    let c = db.add_item_at("text", "t3", "p", 3);
    db.toggle_favorite(a).unwrap();
    db.maintain_limit(2).unwrap();
    let items = db.get_items(10, 0).unwrap();
    assert_eq!(ids(&items), vec![c, a]);
    let _ = b;
}

#[test]
fn eviction_reaches_favorites_only_when_non_favorites_run_out() {
    let mut db = Database::new();
    let a = db.add_item_at("text", "fav-old", "p", 1);
    let b = db.add_item_at("text", "fav-new", "p", 2);
    let c = db.add_item_at("text", "plain", "p", 3);
    db.toggle_favorite(a).unwrap();
    db.toggle_favorite(b).unwrap();
    db.maintain_limit(1).unwrap();
    // overflow 2, only one non-favorite: the oldest favorite leaves too
    let items = db.get_items(10, 0).unwrap();
    assert_eq!(ids(&items), vec![b]);
    let _ = (a, c);
}

#[test]
fn non_positive_limit_clears_everything() {
    let mut db = Database::new();
    let a = db.add_item_at("text", "x", "p", 1);
    db.toggle_favorite(a).unwrap();
    db.maintain_limit(0).unwrap();
    assert_eq!(db.get_items(10, 0).unwrap().len(), 0);
}

#[test]
fn limit_within_count_changes_nothing() {
    let mut db = Database::new();
    db.add_item_at("text", "a", "p", 1);
    db.add_item_at("text", "b", "p", 2);
    db.maintain_limit(5).unwrap();
    assert_eq!(db.get_items(10, 0).unwrap().len(), 2);
}

#[test]
fn toggle_flips_and_reports_the_written_state() {
    let mut db = Database::new();
    let a = db.add_item_at("text", "x", "p", 1);
    assert_eq!(db.toggle_favorite(a), Ok(true));
    assert!(db.get_items(10, 0).unwrap()[0].is_favorite);
    assert_eq!(db.toggle_favorite(a), Ok(false));
    assert!(!db.get_items(10, 0).unwrap()[0].is_favorite);
}

#[test]
fn toggle_of_unknown_id_reports_true_and_stores_nothing() {
    let mut db = Database::new();
    assert_eq!(db.toggle_favorite(99), Ok(true));
    assert_eq!(db.get_items(10, 0).unwrap().len(), 0);
}

#[test]
fn delete_removes_item_and_its_tag_links() {
    let mut db = Database::new();
    let a = db.add_item_at("text", "x", "p", 1);
    let b = db.add_item_at("text", "y", "p", 2);
    db.add_item_tag(a, "work").unwrap();
    db.add_item_tag(b, "work").unwrap();
    db.delete_item(a).unwrap();
    let items = db.get_items(10, 0).unwrap();
    assert_eq!(ids(&items), vec![b]);
    let tagged = db.get_items_by_tag("work", 10).unwrap();
    assert_eq!(ids(&tagged), vec![b]);
    // deleting an unknown id is a no-op
    db.delete_item(12345).unwrap();
    assert_eq!(db.get_items(10, 0).unwrap().len(), 1);
}

#[test]
fn clear_non_favorites_keeps_favorites() {
    let mut db = Database::new();
    let a = db.add_item_at("text", "keep", "p", 1);
    db.add_item_at("text", "drop1", "p", 2);
    db.add_item_at("text", "drop2", "p", 3);
    db.toggle_favorite(a).unwrap();
    db.clear_non_favorites().unwrap();
    let items = db.get_items(10, 0).unwrap();
    assert_eq!(ids(&items), vec![a]);
}

#[test]
fn reset_all_empties_the_store() {
    let mut db = Database::new();
    let a = db.add_item_at("text", "x", "p", 1);
    db.add_item_tag(a, "t").unwrap();
    db.reset_all().unwrap();
    assert_eq!(db.get_items(10, 0).unwrap().len(), 0);
    assert_eq!(db.get_all_tags().unwrap().len(), 0);
    assert_eq!(db.get_items_by_tag("t", 10).unwrap().len(), 0);
}

#[test]
fn add_tag_is_idempotent() {
    let mut db = Database::new();
    let t1 = db.add_tag("work").unwrap();
    let t2 = db.add_tag("work").unwrap();
    assert_eq!(t1, t2);
    assert_eq!(db.get_all_tags().unwrap(), vec!["work"]);
}

#[test]
fn tags_are_listed_sorted_by_name() {
    let mut db = Database::new();
    db.add_tag("zeta").unwrap();
    db.add_tag("alpha").unwrap();
    db.add_tag("midway").unwrap();
    assert_eq!(db.get_all_tags().unwrap(), vec!["alpha", "midway", "zeta"]);
}

#[test]
fn tag_round_trip_on_one_item() {
    let mut db = Database::new();
    let a = db.add_item_at("text", "x", "p", 1);
    db.add_item_tag(a, "x").unwrap();
    let tagged = db.get_items_by_tag("x", 10).unwrap();
    assert_eq!(ids(&tagged), vec![a]);
    assert_eq!(tagged[0].tags, vec!["x"]);
    db.remove_item_tag(a, "x").unwrap();
    assert_eq!(db.get_items_by_tag("x", 10).unwrap().len(), 0);
    assert!(db.get_items(10, 0).unwrap()[0].tags.is_empty());
}

#[test]
fn tagging_an_unknown_item_fails_but_creates_the_tag() {
    let mut db = Database::new();
    assert_eq!(db.add_item_tag(7, "orphan"), Err(ClipboardError::StorageError));
    assert_eq!(db.get_all_tags().unwrap(), vec!["orphan"]);
    assert_eq!(db.get_items_by_tag("orphan", 10).unwrap().len(), 0);
}

#[test]
fn removing_a_missing_tag_is_a_no_op() {
    let mut db = Database::new();
    let a = db.add_item_at("text", "x", "p", 1);
    db.remove_item_tag(a, "nothing").unwrap();
    assert_eq!(db.get_items(10, 0).unwrap().len(), 1);
}

#[test]
fn blank_search_equals_first_page() {
    let mut db = Database::new();
    for t in 0..4 {
        db.add_item_at("text", &format!("c{}", t), "p", t);
    }
    let direct = db.get_items(3, 0).unwrap();
    let searched = db.search_items("   ", 3).unwrap();
    assert_eq!(ids(&direct), ids(&searched));
}

#[test]
fn search_matches_content_preview_and_tags() {
    let mut db = Database::new();
    let a = db.add_item_at("text", "the quick fox", "preview-a", 1);
    let b = db.add_item_at("text", "nothing here", "jumped over", 2);
    let c = db.add_item_at("text", "also nothing", "plain", 3);
    db.add_item_tag(c, "foxhunt").unwrap();
    let by_content = db.search_items("quick", 10).unwrap();
    assert_eq!(ids(&by_content), vec![a]);
    let by_preview = db.search_items("jumped", 10).unwrap();
    assert_eq!(ids(&by_preview), vec![b]);
    let by_tag = db.search_items("foxhunt", 10).unwrap();
    assert_eq!(ids(&by_tag), vec![c]);
    let multi = db.search_items("fox", 10).unwrap();
    assert_eq!(ids(&multi), vec![c, a]);
}

#[test]
fn search_is_ascii_case_insensitive() {
    let mut db = Database::new();
    let a = db.add_item_at("text", "Hello World", "p", 1);
    assert_eq!(ids(&db.search_items("WORLD", 10).unwrap()), vec![a]);
    assert_eq!(ids(&db.search_items("hello", 10).unwrap()), vec![a]);
}

#[test]
fn search_lists_favorites_first() {
    let mut db = Database::new();
    let a = db.add_item_at("text", "match old", "p", 1);
    let b = db.add_item_at("text", "match new", "p", 2);
    db.toggle_favorite(a).unwrap();
    let found = db.search_items("match", 10).unwrap();
    assert_eq!(ids(&found), vec![a, b]);
}

#[test]
fn wildcard_characters_in_queries_stay_literal() {
    let mut db = Database::new();
    db.add_item_at("text", "xfoo", "p", 1);
    let b = db.add_item_at("text", "a %foo b", "p", 2);
    let found = db.search_items("%foo", 10).unwrap();
    assert_eq!(ids(&found), vec![b]);
}

#[test]
fn search_respects_the_limit() {
    let mut db = Database::new();
    for t in 0..5 {
        db.add_item_at("text", &format!("hit {}", t), "p", t);
    }
    assert_eq!(db.search_items("hit", 2).unwrap().len(), 2);
}

#[test]
fn fresh_store_has_ids_available() {
    let mut db = Database::new();
    assert!(db.ids_available());
    db.add_item_at("text", "x", "p", 1);
    db.add_tag("t").unwrap();
    assert!(db.ids_available());
}

#[test]
fn clock_stamped_insert_is_found() {
    let mut db = Database::new();
    let a = db.add_item("text", "stamped", "stamped").unwrap();
    assert_eq!(a, 1);
    let items = db.get_items(10, 0).unwrap();
    assert_eq!(ids(&items), vec![a]);
    assert_eq!(ids(&db.search_items("stamped", 10).unwrap()), vec![a]);
}
