use fs_server::status::{Code, Failure};
use fs_server::FileSystemImpl;

fn strings(items: &[&str]) -> Vec<String> {
    items.iter().map(|s| s.to_string()).collect()
}

#[test]
fn new_store_lists_nothing() {
    let fs = FileSystemImpl::default();
    assert_eq!(fs.list(""), Ok(Vec::<String>::new()));
    assert_eq!(fs.list("/"), Ok(Vec::<String>::new()));
    assert_eq!(FileSystemImpl::new().list("//"), Ok(Vec::<String>::new()));
}

#[test]
fn get_of_the_root_is_not_found() {
    let fs = FileSystemImpl::default();
    assert_eq!(fs.get(""), Err(Failure::NoSuchFile));
    assert_eq!(fs.get("/"), Err(Failure::NoSuchFile));
}

#[test]
fn get_of_a_missing_file_is_not_found() {
    let fs = FileSystemImpl::default();
    assert_eq!(fs.get("nothing"), Err(Failure::NoSuchFile));
    assert_eq!(Failure::NoSuchFile.code(), Code::NotFound);
}

#[test]
fn get_of_a_directory_is_not_found() {
    let mut fs = FileSystemImpl::default();
    assert_eq!(fs.mkdir("d"), Ok(()));
    assert_eq!(fs.get("d"), Err(Failure::NoSuchFile));
}

#[test]
fn write_then_get_returns_the_content() {
    let mut fs = FileSystemImpl::default();
    assert_eq!(fs.write("f", vec![1, 2, 3]), Ok(()));
    assert_eq!(fs.get("f"), Ok(vec![1, 2, 3]));
}

#[test]
fn write_then_get_in_a_nested_directory() {
    let mut fs = FileSystemImpl::default();
    assert_eq!(fs.mkdir("a"), Ok(()));
    assert_eq!(fs.mkdir("a/b"), Ok(()));
    assert_eq!(fs.write("a/b/c", b"deep".to_vec()), Ok(()));
    assert_eq!(fs.get("a/b/c"), Ok(b"deep".to_vec()));
    assert_eq!(fs.get("/a//b/c/"), Ok(b"deep".to_vec()));
    assert_eq!(fs.list("a"), Ok(strings(&["b/"])));
    assert_eq!(fs.list("a/b"), Ok(strings(&["c"])));
}

#[test]
fn write_of_empty_content_round_trips() {
    let mut fs = FileSystemImpl::default();
    assert_eq!(fs.write("empty", Vec::new()), Ok(()));
    assert_eq!(fs.get("empty"), Ok(Vec::new()));
}

#[test]
fn later_write_wins() {
    let mut fs = FileSystemImpl::default();
    assert_eq!(fs.write("f", vec![1]), Ok(()));
    assert_eq!(fs.write("f", vec![2, 2]), Ok(()));
    assert_eq!(fs.get("f"), Ok(vec![2, 2]));
    assert_eq!(fs.list(""), Ok(strings(&["f"])));
}

#[test]
fn list_orders_by_name_and_marks_directories() {
    let mut fs = FileSystemImpl::default();
    assert_eq!(fs.write("b", vec![0]), Ok(()));
    assert_eq!(fs.mkdir("a"), Ok(()));
    assert_eq!(fs.list(""), Ok(strings(&["a/", "b"])));
}

#[test]
fn list_order_is_the_byte_order_of_the_names() {
    let mut fs = FileSystemImpl::default();
    for name in ["b", "a", "B", "ab", "a0", "é", "z", "10", "9", "aa"] {
        assert_eq!(fs.write(name, Vec::new()), Ok(()));
    }
    let mut expected = strings(&["b", "a", "B", "ab", "a0", "é", "z", "10", "9", "aa"]);
    expected.sort();
    assert_eq!(
        expected,
        strings(&["10", "9", "B", "a", "a0", "aa", "ab", "b", "z", "é"])
    );
    assert_eq!(fs.list(""), Ok(expected));
}

#[test]
fn list_of_a_file_is_the_path_as_given() {
    let mut fs = FileSystemImpl::default();
    assert_eq!(fs.mkdir("d"), Ok(()));
    assert_eq!(fs.write("d/f", vec![9]), Ok(()));
    assert_eq!(fs.list("d/f"), Ok(strings(&["d/f"])));
    assert_eq!(fs.list("//d///f/"), Ok(strings(&["//d///f/"])));
}

#[test]
fn list_of_a_missing_path_is_not_found() {
    let mut fs = FileSystemImpl::default();
    assert_eq!(fs.list("x"), Err(Failure::NoSuchFile));
    assert_eq!(fs.write("f", vec![1]), Ok(()));
    assert_eq!(fs.list("f/g"), Err(Failure::NoSuchFile));
}

#[test]
fn write_to_a_directory_is_rejected_and_changes_nothing() {
    let mut fs = FileSystemImpl::default();
    assert_eq!(fs.mkdir("a"), Ok(()));
    assert_eq!(fs.write("a/inner", vec![5]), Ok(()));
    assert_eq!(fs.write("a/", vec![1]), Err(Failure::WriteToDirectory));
    assert_eq!(Failure::WriteToDirectory.code(), Code::InvalidArgument);
    assert_eq!(fs.list(""), Ok(strings(&["a/"])));
    assert_eq!(fs.list("a"), Ok(strings(&["inner"])));
    assert_eq!(fs.get("a/inner"), Ok(vec![5]));
}

#[test]
fn write_without_the_parent_is_not_found() {
    let mut fs = FileSystemImpl::default();
    assert_eq!(fs.write("x/y", vec![1]), Err(Failure::NoSuchDirectory));
    assert_eq!(Failure::NoSuchDirectory.code(), Code::NotFound);
    assert_eq!(Failure::NoSuchDirectory.message(), "no such directory");
    assert_eq!(fs.list(""), Ok(Vec::<String>::new()));
}

#[test]
fn write_below_a_file_is_not_found() {
    let mut fs = FileSystemImpl::default();
    assert_eq!(fs.write("f", vec![1]), Ok(()));
    assert_eq!(fs.write("f/g", vec![2]), Err(Failure::NoSuchDirectory));
    assert_eq!(fs.get("f"), Ok(vec![1]));
}

#[test]
fn write_to_a_path_without_a_name_is_illegal() {
    let mut fs = FileSystemImpl::default();
    assert_eq!(fs.write("", vec![1]), Err(Failure::IllegalFilename));
    assert_eq!(fs.write("///", vec![1]), Err(Failure::IllegalFilename));
    assert_eq!(Failure::IllegalFilename.code(), Code::InvalidArgument);
    assert_eq!(Failure::IllegalFilename.message(), "illegal filename");
    assert_eq!(fs.list(""), Ok(Vec::<String>::new()));
}

#[test]
fn get_below_a_file_is_not_found() {
    let mut fs = FileSystemImpl::default();
    assert_eq!(fs.write("f", vec![1, 2]), Ok(()));
    assert_eq!(fs.get("f/g"), Err(Failure::NoSuchFile));
}

#[test]
fn mkdir_twice_succeeds_and_keeps_what_is_below() {
    let mut fs = FileSystemImpl::default();
    assert_eq!(fs.mkdir("p"), Ok(()));
    assert_eq!(fs.write("p/f", vec![7]), Ok(()));
    assert_eq!(fs.mkdir("p/q"), Ok(()));
    assert_eq!(fs.mkdir("p"), Ok(()));
    assert_eq!(fs.list("p"), Ok(strings(&["f", "q/"])));
    assert_eq!(fs.get("p/f"), Ok(vec![7]));
    assert_eq!(fs.list(""), Ok(strings(&["p/"])));
}

#[test]
fn mkdir_over_a_file_is_rejected() {
    let mut fs = FileSystemImpl::default();
    assert_eq!(fs.write("f", vec![3]), Ok(()));
    assert_eq!(fs.mkdir("f"), Err(Failure::FileExists));
    assert_eq!(Failure::FileExists.code(), Code::InvalidArgument);
    assert_eq!(Failure::FileExists.message(), "file exists");
    assert_eq!(fs.get("f"), Ok(vec![3]));
    assert_eq!(fs.list(""), Ok(strings(&["f"])));
}

#[test]
fn mkdir_without_the_parent_is_not_found() {
    let mut fs = FileSystemImpl::default();
    assert_eq!(fs.mkdir("x/y"), Err(Failure::NoSuchDirectory));
    assert_eq!(fs.write("f", vec![1]), Ok(()));
    assert_eq!(fs.mkdir("f/d"), Err(Failure::NoSuchDirectory));
    assert_eq!(fs.list(""), Ok(strings(&["f"])));
}

#[test]
fn mkdir_of_a_path_without_a_name_is_illegal() {
    let mut fs = FileSystemImpl::default();
    assert_eq!(fs.mkdir(""), Err(Failure::IllegalDirname));
    assert_eq!(fs.mkdir("/"), Err(Failure::IllegalDirname));
    assert_eq!(Failure::IllegalDirname.code(), Code::InvalidArgument);
    assert_eq!(Failure::IllegalDirname.message(), "illegal dirname");
}

#[test]
fn writes_to_distinct_names_are_all_listed() {
    let mut fs = FileSystemImpl::default();
    assert_eq!(fs.mkdir("dir"), Ok(()));
    let count: usize = 50;
    for i in (0..count).rev() {
        let path = format!("dir/file{:02}", i);
        assert_eq!(fs.write(&path, vec![i as u8]), Ok(()));
    }
    let expected: Vec<String> = (0..count).map(|i| format!("file{:02}", i)).collect();
    assert_eq!(fs.list("dir"), Ok(expected));
    for i in 0..count {
        let path = format!("dir/file{:02}", i);
        assert_eq!(fs.get(&path), Ok(vec![i as u8]));
    }
}

#[test]
fn writes_in_either_order_give_the_same_listing() {
    let mut one = FileSystemImpl::default();
    assert_eq!(one.write("x", vec![1]), Ok(()));
    assert_eq!(one.write("y", vec![2]), Ok(()));
    let mut other = FileSystemImpl::default();
    assert_eq!(other.write("y", vec![2]), Ok(()));
    assert_eq!(other.write("x", vec![1]), Ok(()));
    assert_eq!(one.list(""), other.list(""));
    assert_eq!(one.get("x"), other.get("x"));
    assert_eq!(one.get("y"), other.get("y"));
}

#[test]
fn failure_messages_and_kinds() {
    assert_eq!(Failure::NoSuchFile.message(), "no such file");
    assert_eq!(Failure::WriteToDirectory.message(), "cannot write to directory");
    assert_eq!(Failure::InvalidCode.message(), "invalid code");
    assert_eq!(Failure::MissingEntry.message(), "missing entry function");
    assert_eq!(Failure::ExecutionError.message(), "execution error");
    assert_eq!(Failure::InvalidCode.code(), Code::InvalidArgument);
    assert_eq!(Failure::MissingEntry.code(), Code::InvalidArgument);
    assert_eq!(Failure::ExecutionError.code(), Code::FailedPrecondition);
}

#[test]
fn many_writes_in_any_order_lose_nothing_and_show_nothing_twice() {
    let names = ["k", "c", "y", "a", "m", "q", "e"];
    let orders: [[usize; 7]; 3] = [[0, 1, 2, 3, 4, 5, 6], [6, 5, 4, 3, 2, 1, 0], [3, 0, 6, 2, 5, 1, 4]];
    let mut listings = Vec::new();
    for order in orders {
        let mut fs = FileSystemImpl::default();
        assert_eq!(fs.mkdir("d"), Ok(()));
        assert_eq!(fs.mkdir("d/sub"), Ok(()));
        assert_eq!(fs.write("d/old", vec![0]), Ok(()));
        assert_eq!(fs.write("d/m", vec![0]), Ok(()));
        assert_eq!(fs.write("beside", vec![9]), Ok(()));
        for i in order {
            let path = format!("d/{}", names[i]);
            assert_eq!(fs.write(&path, vec![i as u8, 1]), Ok(()));
        }
        for (i, name) in names.iter().enumerate() {
            assert_eq!(fs.get(&format!("d/{}", name)), Ok(vec![i as u8, 1]));
        }
        assert_eq!(fs.get("d/old"), Ok(vec![0]));
        assert_eq!(fs.get("beside"), Ok(vec![9]));
        assert_eq!(fs.list(""), Ok(strings(&["beside", "d/"])));
        listings.push(fs.list("d"));
    }
    let expected = strings(&["a", "c", "e", "k", "m", "old", "q", "sub/", "y"]);
    for listing in listings {
        assert_eq!(listing, Ok(expected.clone()));
    }
}
