use libproiectio::{charge_held, name_files, Budget, Entry, Error, Limits, Placement};

#[test]
fn each_path_is_keyed_by_its_basename_and_a_repeat_counts_once() {
    let named = name_files(&vec!["/a/one".to_string(), "/b/two".to_string(), "/a/one".to_string()]).unwrap();
    assert_eq!(
        named,
        vec![("one".to_string(), "/a/one".to_string()), ("two".to_string(), "/b/two".to_string())]
    );
}

#[test]
fn two_paths_sharing_a_basename_are_refused_naming_both() {
    match name_files(&vec!["/a/rc".to_string(), "/b/rc".to_string()]) {
        Err(Error::FilesDuplicate { first, second }) => {
            assert_eq!((first.as_str(), second.as_str()), ("/a/rc", "/b/rc"));
        }
        other => panic!("expected FilesDuplicate, got {other:?}"),
    }
}

#[test]
fn a_path_without_a_file_name_is_refused() {
    assert!(matches!(
        name_files(&vec!["/a/..".to_string()]),
        Err(Error::FilesNodeKind { path }) if path == "/a/.."
    ));
    assert!(matches!(name_files(&vec!["/".to_string()]), Err(Error::FilesNodeKind { .. })));
}

#[test]
fn holding_an_entry_spends_its_name_and_what_it_carries_besides_file_bytes() {
    let mut budget = Budget::new(Limits::default().with_max_source_bytes(10));
    let file = Entry::File { contents: vec![0; 100], executable: false };
    charge_held(&mut budget, "abc", &file, "/x/abc").unwrap();
    assert_eq!(budget.remaining(), 7);
    let link = Entry::Symlink { target: "é".to_string() };
    charge_held(&mut budget, "l", &link, "/x/l").unwrap();
    assert_eq!(budget.remaining(), 4);
    let block = Entry::Block { body: b"12".to_vec(), marker: "#m".to_string(), placement: Placement::Append };
    match charge_held(&mut budget, "b", &block, "/x/b") {
        Err(Error::SourceTooLarge { path, limit }) => {
            assert_eq!((path.as_str(), limit), ("/x/b", 10));
        }
        other => panic!("expected SourceTooLarge, got {other:?}"),
    }
    assert!(budget.exhausted());
    assert_eq!(budget.remaining(), 4);
}

#[test]
fn the_name_is_the_last_normal_component_whatever_trails_it() {
    let named = name_files(&vec!["/usr/bin/".to_string(), "/tmp/foo.txt/.//".to_string()]).unwrap();
    assert_eq!(
        named,
        vec![
            ("bin".to_string(), "/usr/bin/".to_string()),
            ("foo.txt".to_string(), "/tmp/foo.txt/.//".to_string()),
        ]
    );
}
