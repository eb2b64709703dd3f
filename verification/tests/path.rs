use fs_server::order::comes_before;
use fs_server::path::segments;

fn strings(items: &[&str]) -> Vec<String> {
    items.iter().map(|s| s.to_string()).collect()
}

#[test]
fn segments_of_the_empty_path() {
    assert_eq!(segments(""), Vec::<String>::new());
}

#[test]
fn segments_of_separators_alone() {
    assert_eq!(segments("/"), Vec::<String>::new());
    assert_eq!(segments("////"), Vec::<String>::new());
}

#[test]
fn segments_of_a_plain_path() {
    assert_eq!(segments("a/b/c"), strings(&["a", "b", "c"]));
    assert_eq!(segments("one"), strings(&["one"]));
}

#[test]
fn segments_drop_separators_at_the_ends_and_in_a_row() {
    assert_eq!(segments("/a/b"), strings(&["a", "b"]));
    assert_eq!(segments("a/b/"), strings(&["a", "b"]));
    assert_eq!(segments("//a///b//"), strings(&["a", "b"]));
}

#[test]
fn segments_keep_other_characters() {
    assert_eq!(segments("dir with space/é/ü.txt"), strings(&["dir with space", "é", "ü.txt"]));
    assert_eq!(segments("a\\b/./.."), strings(&["a\\b", ".", ".."]));
}

#[test]
fn comes_before_is_the_order_of_str() {
    let names = ["", "a", "b", "ab", "B", "a0", "é", "zz", "z", "10", "9", "\u{10000}", "\u{ffff}"];
    for x in names {
        for y in names {
            assert_eq!(comes_before(x, y), x < y, "{:?} {:?}", x, y);
        }
    }
}

#[test]
fn comes_before_on_prefixes() {
    assert!(comes_before("a", "ab"));
    assert!(!comes_before("ab", "a"));
    assert!(!comes_before("a", "a"));
    assert!(comes_before("", "a"));
}
