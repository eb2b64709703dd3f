use fs_server::tree::{Children, Tree};
use fs_server::FileSystemImpl;

fn strings(items: &[&str]) -> Vec<String> {
    items.iter().map(|s| s.to_string()).collect()
}

fn content(tree: Option<&Tree>) -> Option<Vec<u8>> {
    match tree {
        Some(Tree::Leaf(content)) => Some(content.clone()),
        _ => None,
    }
}

fn is_directory(tree: Option<&Tree>) -> bool {
    matches!(tree, Some(Tree::Parent(_)))
}

/// root: { a: { x: [1], y: {} }, b: [2] }
fn sample() -> Tree {
    let mut a = Children::new();
    assert!(a.insert("y".to_string(), Tree::empty()).is_none());
    assert!(a.insert("x".to_string(), Tree::Leaf(vec![1])).is_none());
    let mut root = Children::new();
    assert!(root.insert("b".to_string(), Tree::Leaf(vec![2])).is_none());
    assert!(root.insert("a".to_string(), Tree::Parent(a)).is_none());
    Tree::Parent(root)
}

#[test]
fn children_start_empty() {
    let children = Children::new();
    assert!(children.entries.is_empty());
    assert_eq!(children.search("a"), Err(0));
    assert!(children.get("a").is_none());
    assert_eq!(children.listing(), Vec::<String>::new());
}

#[test]
fn insert_keeps_the_names_in_order() {
    let mut children = Children::new();
    for name in ["m", "c", "x", "a", "p"] {
        assert!(children.insert(name.to_string(), Tree::Leaf(name.as_bytes().to_vec())).is_none());
    }
    let names: Vec<&str> = children.entries.iter().map(|entry| entry.0.as_str()).collect();
    assert_eq!(names, vec!["a", "c", "m", "p", "x"]);
    assert_eq!(children.listing(), strings(&["a", "c", "m", "p", "x"]));
}

#[test]
fn insert_hands_back_what_the_name_had() {
    let mut children = Children::new();
    assert!(children.insert("f".to_string(), Tree::Leaf(vec![1])).is_none());
    let before = children.insert("f".to_string(), Tree::Leaf(vec![2]));
    assert_eq!(content(before.as_ref()), Some(vec![1]));
    assert_eq!(content(children.get("f")), Some(vec![2]));
    assert_eq!(children.entries.len(), 1);
}

#[test]
fn search_finds_the_place_of_a_name() {
    let mut children = Children::new();
    for name in ["b", "d", "f"] {
        assert!(children.insert(name.to_string(), Tree::empty()).is_none());
    }
    assert_eq!(children.search("b"), Ok(0));
    assert_eq!(children.search("d"), Ok(1));
    assert_eq!(children.search("f"), Ok(2));
    assert_eq!(children.search("a"), Err(0));
    assert_eq!(children.search("c"), Err(1));
    assert_eq!(children.search("e"), Err(2));
    assert_eq!(children.search("g"), Err(3));
    assert_eq!(children.search(""), Err(0));
    assert_eq!(children.search("bb"), Err(1));
}

#[test]
fn children_get_mut_changes_the_entry_in_place() {
    let mut children = Children::new();
    assert!(children.insert("a".to_string(), Tree::Leaf(vec![1])).is_none());
    assert!(children.insert("b".to_string(), Tree::Leaf(vec![2])).is_none());
    match children.get_mut("a") {
        Some(tree) => *tree = Tree::Leaf(vec![9, 9]),
        None => panic!("a is there"),
    }
    assert!(children.get_mut("c").is_none());
    assert_eq!(content(children.get("a")), Some(vec![9, 9]));
    assert_eq!(content(children.get("b")), Some(vec![2]));
}

#[test]
fn listing_marks_directories() {
    let tree = sample();
    match tree.children() {
        Some(children) => assert_eq!(children.listing(), strings(&["a/", "b"])),
        None => panic!("the sample is a directory"),
    }
}

#[test]
fn children_of_a_file_are_none() {
    let mut file = Tree::Leaf(vec![1]);
    assert!(file.children().is_none());
    assert!(file.children_mut().is_none());
    let mut directory = Tree::empty();
    assert!(directory.children().is_some());
    match directory.children_mut() {
        Some(children) => {
            assert!(children.insert("n".to_string(), Tree::Leaf(vec![3])).is_none());
        }
        None => panic!("an empty directory is a directory"),
    }
    assert_eq!(content(directory.get(&strings(&["n"]))), Some(vec![3]));
}

#[test]
fn tree_get_follows_the_segments() {
    let tree = sample();
    assert!(is_directory(tree.get(&Vec::new())));
    assert!(is_directory(tree.get(&strings(&["a"]))));
    assert!(is_directory(tree.get(&strings(&["a", "y"]))));
    assert_eq!(content(tree.get(&strings(&["a", "x"]))), Some(vec![1]));
    assert_eq!(content(tree.get(&strings(&["b"]))), Some(vec![2]));
}

#[test]
fn tree_get_fails_on_missing_names_and_below_files() {
    let tree = sample();
    assert!(tree.get(&strings(&["c"])).is_none());
    assert!(tree.get(&strings(&["a", "z"])).is_none());
    assert!(tree.get(&strings(&["b", "x"])).is_none());
    assert!(tree.get(&strings(&["a", "x", "deeper"])).is_none());
    assert!(Tree::Leaf(vec![0]).get(&strings(&["a"])).is_none());
    assert_eq!(content(Tree::Leaf(vec![0]).get(&Vec::new())), Some(vec![0]));
}

#[test]
fn tree_get_mut_changes_the_tree_in_place() {
    let mut tree = sample();
    match tree.get_mut(&strings(&["a", "y"])) {
        Some(Tree::Parent(children)) => {
            assert!(children.insert("new".to_string(), Tree::Leaf(vec![7])).is_none());
        }
        _ => panic!("a/y is a directory"),
    }
    assert_eq!(content(tree.get(&strings(&["a", "y", "new"]))), Some(vec![7]));
    assert_eq!(content(tree.get(&strings(&["a", "x"]))), Some(vec![1]));
    assert_eq!(content(tree.get(&strings(&["b"]))), Some(vec![2]));
    match tree.get_mut(&Vec::new()) {
        Some(root) => *root = Tree::Leaf(vec![5]),
        None => panic!("no segments lead to the tree itself"),
    }
    assert_eq!(content(Some(&tree)), Some(vec![5]));
}

#[test]
fn tree_get_mut_fails_where_get_fails() {
    let mut tree = sample();
    assert!(tree.get_mut(&strings(&["c"])).is_none());
    assert!(tree.get_mut(&strings(&["b", "x"])).is_none());
    assert!(tree.get_mut(&strings(&["a", "x", "deeper"])).is_none());
    assert_eq!(content(tree.get(&strings(&["a", "x"]))), Some(vec![1]));
    assert_eq!(content(tree.get(&strings(&["b"]))), Some(vec![2]));
}

#[test]
fn store_invariants_can_be_called_for() {
    let mut fs = FileSystemImpl::default();
    fs.always();
    assert_eq!(fs.write("f", vec![1]), Ok(()));
    fs.always();
    assert_eq!(fs.list(""), Ok(strings(&["f"])));
}
