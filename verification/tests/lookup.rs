use mgutil::codec::Bookmark;
use mgutil::lookup::{alias_matches, find_matches};

fn bm(alias: &str, kind: &str, value: &str) -> Bookmark {
    Bookmark {
        alias: alias.to_string(),
        kind: kind.to_string(),
        value: value.to_string(),
    }
}

#[test]
fn alias_matching_ignores_ascii_case() {
    assert!(alias_matches("x", "X"));
    assert!(alias_matches("abc", "ABC"));
    assert!(alias_matches("Docs1", "dOCS1"));
    assert!(alias_matches("a_b-c", "A_B-C"));
}

#[test]
fn alias_matching_rejects_different_aliases() {
    assert!(!alias_matches("a", "b"));
    assert!(!alias_matches("ab", "a"));
    assert!(!alias_matches("", "a"));
    assert!(alias_matches("", ""));
}

#[test]
fn lookup_matches_what_removal_spares() {
    // The asymmetry: a lookup for "X" finds an alias stored as "x", while
    // removal by "X" leaves it alone (see the store tests).
    assert!(alias_matches("x", "X"));
    assert_ne!("x", "X");
}

#[test]
fn find_matches_returns_every_match_in_order() {
    let bookmarks = vec![
        bm("x", "path", "/a"),
        bm("y", "path", "/b"),
        bm("X", "path", "/c"),
    ];
    assert_eq!(find_matches(&bookmarks, "X"), vec![0, 2]);
    assert_eq!(find_matches(&bookmarks, "y"), vec![1]);
    assert_eq!(find_matches(&bookmarks, "z"), Vec::<usize>::new());
}
