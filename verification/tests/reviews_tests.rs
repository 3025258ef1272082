use costore::error::{ApiError, StoreError};
use costore::reviews::{embed_text, insert_bulk_reviews, insert_review, is_blank_str,
    search_reviews, BulkReviewInput, ReviewInput, SearchInput};
use costore::store::Store;

const DIM: usize = 2;

fn empty_store() -> Store {
    Store::new(DIM, Vec::new(), Vec::new()).expect("empty logs are aligned")
}

fn input(title: &str, body: &str) -> ReviewInput {
    ReviewInput { title: String::from(title), body: String::from(body) }
}

fn vec_of(x: u32) -> Vec<u32> {
    vec![x, 0]
}

#[test]
fn blankness_of_strings() {
    assert!(is_blank_str(&String::new()));
    assert!(is_blank_str(&String::from("   ")));
    assert!(is_blank_str(&String::from(" \t\r\n")));
    assert!(is_blank_str(&String::from("\u{a0}\u{2003}")));
    assert!(!is_blank_str(&String::from(" x ")));
}

#[test]
fn embed_text_joins_title_and_body() {
    assert_eq!(embed_text(&String::from("t"), &String::from("b")), "t . b");
}

#[test]
fn effective_k_defaults_to_five() {
    let with_k = SearchInput { query: String::from("q"), top_k: Some(2) };
    let without = SearchInput { query: String::from("q"), top_k: None };
    assert_eq!(with_k.effective_k(), 2);
    assert_eq!(without.effective_k(), 5);
}

#[test]
fn insert_accepts_valid_input() {
    let mut s = empty_store();
    let r = insert_review(&mut s, &input("a title", "a body"), &vec_of(1)).unwrap();
    assert_eq!(r.id, 0);
    assert!(r.success);
    let m = s.load_meta(0).unwrap();
    assert_eq!(m.title, "a title");
    assert_eq!(m.body, "a body");
}

#[test]
fn insert_rejects_empty_title() {
    let mut s = empty_store();
    let r = insert_review(&mut s, &input("", "a body"), &vec_of(1));
    assert!(matches!(r, Err(ApiError::ValidationError(_))));
    assert_eq!(s.next_id(), 0);
    assert!(s.meta_log.is_empty());
    assert!(s.vec_log.is_empty());
}

#[test]
fn insert_rejects_whitespace_only_title() {
    let mut s = empty_store();
    let r = insert_review(&mut s, &input(" \t ", "a body"), &vec_of(1));
    assert!(matches!(r, Err(ApiError::ValidationError(_))));
    assert_eq!(s.next_id(), 0);
}

#[test]
fn insert_rejects_empty_body() {
    let mut s = empty_store();
    let r = insert_review(&mut s, &input("a title", ""), &vec_of(1));
    assert!(matches!(r, Err(ApiError::ValidationError(_))));
    assert_eq!(s.next_id(), 0);
    assert!(s.meta_log.is_empty());
}

#[test]
fn bulk_insert_partial_failure() {
    let mut s = empty_store();
    let payload =
        BulkReviewInput(vec![input("first", "ok"), input("second", ""), input("third", "ok")]);
    let items = payload.0;
    let vectors = vec![vec_of(1), vec_of(2), vec_of(3)];
    let r = insert_bulk_reviews(&mut s, &items, &vectors);
    assert_eq!(r.inserted, 2);
    assert_eq!(r.failed, 1);
    assert_eq!(r.errors, vec![String::from("item 1: empty title or body")]);
    // Exactly two new ids exist afterwards, in item order.
    assert_eq!(s.next_id(), 2);
    assert_eq!(s.load_meta(0).unwrap().title, "first");
    assert_eq!(s.load_meta(1).unwrap().title, "third");
    assert!(matches!(s.load_meta(2), Err(StoreError::NotFound)));
}

#[test]
fn bulk_insert_all_valid() {
    let mut s = empty_store();
    let items = vec![input("a", "x"), input("b", "y")];
    let vectors = vec![vec_of(1), vec_of(2)];
    let r = insert_bulk_reviews(&mut s, &items, &vectors);
    assert_eq!(r.inserted, 2);
    assert_eq!(r.failed, 0);
    assert!(r.errors.is_empty());
}

#[test]
fn bulk_insert_reports_each_failed_index() {
    let mut s = empty_store();
    let items = vec![input("", "x"), input("ok", "y"), input("  ", "z")];
    let vectors = vec![vec_of(1), vec_of(2), vec_of(3)];
    let r = insert_bulk_reviews(&mut s, &items, &vectors);
    assert_eq!(r.inserted, 1);
    assert_eq!(r.failed, 2);
    assert_eq!(
        r.errors,
        vec![
            String::from("item 0: empty title or body"),
            String::from("item 2: empty title or body"),
        ]
    );
}

#[test]
fn search_resolves_hits_in_order() {
    let mut s = empty_store();
    insert_review(&mut s, &input("one", "b1"), &vec_of(1)).unwrap();
    insert_review(&mut s, &input("two", "b2"), &vec_of(2)).unwrap();
    let hits: Vec<(usize, u32)> = vec![(1, 10), (0, 20)];
    let res = search_reviews(&s, &hits).unwrap();
    assert_eq!(res.len(), 2);
    assert_eq!(res[0].id, 1);
    assert_eq!(res[0].title, "two");
    assert_eq!(res[0].score_bits, 10);
    assert_eq!(res[1].id, 0);
    assert_eq!(res[1].title, "one");
    assert_eq!(res[1].score_bits, 20);
}

#[test]
fn search_drops_unknown_ids() {
    // An id the index knows but the store does not is dropped: one
    // fewer result than hits, not a failed request.
    let mut s = empty_store();
    insert_review(&mut s, &input("one", "b1"), &vec_of(1)).unwrap();
    let hits: Vec<(usize, u32)> = vec![(0, 1), (5, 2)];
    let res = search_reviews(&s, &hits).unwrap();
    assert_eq!(res.len(), 1);
    assert_eq!(res[0].id, 0);
}

#[test]
fn search_escalates_corrupt_records() {
    let meta_log: Vec<char> = "not a record\n".chars().collect();
    let vec_log: Vec<u8> = vec![0; DIM * 4];
    let s = Store::new(DIM, vec_log, meta_log).unwrap();
    let hits: Vec<(usize, u32)> = vec![(0, 1)];
    assert!(matches!(search_reviews(&s, &hits), Err(ApiError::InternalError(_))));
}
