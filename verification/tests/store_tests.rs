use costore::error::StoreError;
use costore::record::ReviewMeta;
use costore::store::{vector_bytes, Store};

const DIM: usize = 2;

fn empty_store() -> Store {
    Store::new(DIM, Vec::new(), Vec::new()).expect("empty logs are aligned")
}

fn meta(id: usize, title: &str, body: &str) -> ReviewMeta {
    ReviewMeta { id, title: String::from(title), body: String::from(body) }
}

#[test]
fn vector_bytes_little_endian() {
    let v: Vec<u32> = vec![1, 0x0a0b0c0d];
    assert_eq!(vector_bytes(&v), vec![1, 0, 0, 0, 0x0d, 0x0c, 0x0b, 0x0a]);
}

#[test]
fn empty_store_has_no_records() {
    let s = empty_store();
    assert_eq!(s.next_id(), 0);
    // Out-of-range lookup on a freshly opened empty store.
    match s.load_meta(0) {
        Err(StoreError::NotFound) => {},
        other => panic!("expected NotFound, got {:?}", other),
    }
}

#[test]
fn append_then_load_round_trips() {
    let mut s = empty_store();
    let v: Vec<u32> = vec![1, 2];
    let id = s.append_review(&v, &meta(0, "title one", "body one")).unwrap();
    assert_eq!(id, 0);
    let m = s.load_meta(0).unwrap();
    assert_eq!(m.id, 0);
    assert_eq!(m.title, "title one");
    assert_eq!(m.body, "body one");
}

#[test]
fn ids_are_dense_and_monotone() {
    let mut s = empty_store();
    let v: Vec<u32> = vec![0, 0];
    for expect in 0..5usize {
        let id = s.next_id();
        assert_eq!(id, expect);
        let got = s.append_review(&v, &meta(id, "t", "b")).unwrap();
        assert_eq!(got, expect);
    }
    assert_eq!(s.next_id(), 5);
}

#[test]
fn alignment_across_many_appends() {
    let mut s = empty_store();
    let titles = ["a", "b\"x", "c\nd", "caf\u{e9}"];
    for (i, t) in titles.iter().enumerate() {
        let v: Vec<u32> = vec![i as u32, 0];
        s.append_review(&v, &meta(i, t, "body")).unwrap();
    }
    assert_eq!(s.offsets.len(), titles.len());
    assert_eq!(s.vec_log.len(), titles.len() * DIM * 4);
    for (i, t) in titles.iter().enumerate() {
        let m = s.load_meta(i).unwrap();
        assert_eq!(m.id, i);
        assert_eq!(m.title, *t);
    }
    match s.load_meta(titles.len()) {
        Err(StoreError::NotFound) => {},
        other => panic!("expected NotFound, got {:?}", other),
    }
}

#[test]
fn reopen_reproduces_offsets_and_lookups() {
    let mut s = empty_store();
    for i in 0..3usize {
        let v: Vec<u32> = vec![i as u32, 7];
        s.append_review(&v, &meta(i, "some title", "some body")).unwrap();
    }
    let reopened = Store::new(DIM, s.vec_log.clone(), s.meta_log.clone())
        .expect("a well-formed store's logs reopen");
    assert_eq!(reopened.offsets, s.offsets);
    for i in 0..3usize {
        let a = s.load_meta(i).unwrap();
        let b = reopened.load_meta(i).unwrap();
        assert_eq!(a.id, b.id);
        assert_eq!(a.title, b.title);
        assert_eq!(a.body, b.body);
    }
}

#[test]
fn open_rejects_vector_log_ahead_of_metadata() {
    // Crash window: the vector bytes were written, the metadata line
    // was not.  Reopening must surface the misalignment.
    let vec_log: Vec<u8> = vec![0; DIM * 4];
    match Store::new(DIM, vec_log, Vec::new()) {
        Err(StoreError::Misaligned) => {},
        other => panic!("expected Misaligned, got {:?}", other.map(|_| ())),
    }
}

#[test]
fn open_rejects_unterminated_metadata_line() {
    // Crash window: the metadata write stopped mid-line.
    let mut s = empty_store();
    s.append_review(&vec![1, 2], &meta(0, "t", "b")).unwrap();
    let mut meta_log = s.meta_log.clone();
    meta_log.pop();
    match Store::new(DIM, s.vec_log.clone(), meta_log) {
        Err(StoreError::Misaligned) => {},
        other => panic!("expected Misaligned, got {:?}", other.map(|_| ())),
    }
}

#[test]
fn open_rejects_metadata_ahead_of_vector_log() {
    let mut s = empty_store();
    s.append_review(&vec![1, 2], &meta(0, "t", "b")).unwrap();
    match Store::new(DIM, Vec::new(), s.meta_log.clone()) {
        Err(StoreError::Misaligned) => {},
        other => panic!("expected Misaligned, got {:?}", other.map(|_| ())),
    }
}

#[test]
fn corrupt_line_reported_on_lookup() {
    // A hand-built store whose only line is not a record encoding:
    // structurally sound (the offset table matches the log), so it
    // opens, but the lookup must report corruption.
    let meta_log: Vec<char> = "not a record\n".chars().collect();
    let vec_log: Vec<u8> = vec![0; DIM * 4];
    let s = Store::new(DIM, vec_log, meta_log).expect("structurally aligned logs open");
    match s.load_meta(0) {
        Err(StoreError::CorruptData) => {},
        other => panic!("expected CorruptData, got {:?}", other),
    }
}
