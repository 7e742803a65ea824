use mgutil::codec::Bookmark;
use mgutil::store::BookmarkStore;
use mgutil::codec::StoreError;

fn bm(alias: &str, kind: &str, value: &str) -> Bookmark {
    Bookmark {
        alias: alias.to_string(),
        kind: kind.to_string(),
        value: value.to_string(),
    }
}

fn store_of(lines: &[&str]) -> BookmarkStore {
    let owned: Vec<String> = lines.iter().map(|l| l.to_string()).collect();
    BookmarkStore::from_lines(owned)
}

#[test]
fn append_then_load() {
    let mut store = BookmarkStore::new();
    let r = bm("x", "path", "/a");
    store.append(&r);
    let loaded = store.load_all().unwrap();
    assert_eq!(loaded.len(), 1);
    assert_eq!(loaded[0], r);
}

#[test]
fn load_empty_store() {
    let store = BookmarkStore::new();
    assert_eq!(store.load_all().unwrap(), Vec::<Bookmark>::new());
}

#[test]
fn remove_all_matches() {
    let mut store = BookmarkStore::new();
    store.append(&bm("x", "path", "/a"));
    store.append(&bm("x", "path", "/b"));
    store.append(&bm("y", "path", "/c"));
    store.remove_by_alias("x");
    let loaded = store.load_all().unwrap();
    assert_eq!(loaded, vec![bm("y", "path", "/c")]);
}

#[test]
fn removal_is_case_sensitive() {
    let mut store = BookmarkStore::new();
    store.append(&bm("x", "path", "/a"));
    store.remove_by_alias("X");
    let loaded = store.load_all().unwrap();
    assert_eq!(loaded, vec![bm("x", "path", "/a")]);
}

#[test]
fn removal_of_absent_alias_keeps_content() {
    let mut store = BookmarkStore::new();
    store.append(&bm("x", "path", "/a"));
    store.append(&bm("y", "path", "/b"));
    let before = store.lines().clone();
    store.remove_by_alias("zzz");
    assert_eq!(store.lines(), &before);
}

#[test]
fn removal_does_not_touch_longer_aliases() {
    let mut store = BookmarkStore::new();
    store.append(&bm("x", "path", "/a"));
    store.append(&bm("xy", "path", "/b"));
    store.remove_by_alias("x");
    let loaded = store.load_all().unwrap();
    assert_eq!(loaded, vec![bm("xy", "path", "/b")]);
}

#[test]
fn initialization_is_idempotent() {
    let first = BookmarkStore::ensure_initialized(None);
    assert_eq!(first.lines().len(), 0);
    let mut filled = first;
    filled.append(&bm("x", "path", "/a"));
    let before = filled.lines().clone();
    let again = BookmarkStore::ensure_initialized(Some(filled));
    assert_eq!(again.lines(), &before);
    let third = BookmarkStore::ensure_initialized(Some(again));
    assert_eq!(third.lines(), &before);
}

#[test]
fn order_survives_appends_and_one_removal() {
    let mut store = BookmarkStore::new();
    store.append(&bm("a", "path", "/1"));
    store.append(&bm("b", "path", "/2"));
    store.append(&bm("a", "path", "/3"));
    store.append(&bm("c", "path", "/4"));
    store.remove_by_alias("a");
    store.append(&bm("d", "path", "/5"));
    let loaded = store.load_all().unwrap();
    assert_eq!(
        loaded,
        vec![bm("b", "path", "/2"), bm("c", "path", "/4"), bm("d", "path", "/5")]
    );
}

#[test]
fn duplicate_aliases_accumulate() {
    let mut store = BookmarkStore::new();
    store.append(&bm("x", "path", "/a"));
    store.append(&bm("x", "path", "/b"));
    let loaded = store.load_all().unwrap();
    assert_eq!(loaded, vec![bm("x", "path", "/a"), bm("x", "path", "/b")]);
}

#[test]
fn empty_lines_are_skipped() {
    let store = store_of(&["a;path;/1", "", "b;path;/2", ""]);
    let loaded = store.load_all().unwrap();
    assert_eq!(loaded, vec![bm("a", "path", "/1"), bm("b", "path", "/2")]);
}

#[test]
fn malformed_line_aborts_load() {
    let store = store_of(&["a;path;/1", "nodelimiter", "b;path;/2"]);
    assert_eq!(store.load_all().unwrap_err(), StoreError::MalformedRecord);
}

#[test]
fn lines_returns_file_content() {
    let store = store_of(&["a;path;/1", "b;path;/2"]);
    assert_eq!(store.lines(), &vec!["a;path;/1".to_string(), "b;path;/2".to_string()]);
}

#[test]
fn append_writes_encoded_line() {
    let mut store = BookmarkStore::new();
    store.append(&bm("docs", "path", "/home/me/Documents"));
    assert_eq!(store.lines(), &vec!["docs;path;/home/me/Documents".to_string()]);
}
