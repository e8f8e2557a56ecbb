use libproiectio::{
    check_mapping_version, inline_entry, mapping_tree, merge_expansion, validate_mapping,
    ArchiveFormat, ArchiveTable, Body, Desired, Document, Entry, Error, Expansion, FileTable,
    LinkTable, Origin, Refused, MAPPING_VERSION,
};

fn contents(text: &str) -> FileTable {
    FileTable { contents: Some(text.to_string()), source: None, executable: None }
}

fn source(path: &str, executable: Option<bool>) -> FileTable {
    FileTable { contents: None, source: Some(path.to_string()), executable }
}

fn doc(
    files: Vec<(&str, FileTable)>,
    links: Vec<(&str, &str)>,
    archives: Vec<(&str, &str, Option<u32>)>,
) -> Document {
    Document {
        files: files.into_iter().map(|(k, t)| (k.to_string(), t)).collect(),
        links: links
            .into_iter()
            .map(|(k, t)| (k.to_string(), LinkTable { target: t.to_string() }))
            .collect(),
        archives: archives
            .into_iter()
            .map(|(k, s, strip)| (k.to_string(), ArchiveTable { source: s.to_string(), strip }))
            .collect(),
    }
}

const MAPPING: &str = "/work/deploy.toml";

#[test]
fn only_the_supported_version_passes() {
    assert!(check_mapping_version(MAPPING, MAPPING_VERSION).is_ok());
    match check_mapping_version(MAPPING, 2) {
        Err(Error::MappingVersion { path, found, supported }) => {
            assert_eq!((path.as_str(), found, supported), (MAPPING, 2, 1));
        }
        other => panic!("expected MappingVersion, got {other:?}"),
    }
}

#[test]
fn a_valid_mapping_comes_back_normalized_in_order() {
    let plan = validate_mapping(
        MAPPING,
        doc(
            vec![("config/../settings.toml", contents("x = 1\n")), ("bin/tool", source("./tool.sh", Some(true)))],
            vec![("current", "releases/1.2.3")],
            vec![("vendor/", "v.tar.gz", None), ("deps", "d.zip", Some(2))],
        ),
    )
    .unwrap();
    assert_eq!(plan.files.len(), 2);
    assert_eq!(plan.files[0].0, "settings.toml");
    assert!(matches!(&plan.files[0].1, Body::Contents(c) if c == "x = 1\n"));
    assert_eq!(plan.files[0].2, None);
    assert_eq!(plan.files[1].0, "bin/tool");
    assert!(matches!(&plan.files[1].1, Body::Source(s) if s == "./tool.sh"));
    assert_eq!(plan.files[1].2, Some(true));
    assert_eq!(plan.links, vec![("current".to_string(), "releases/1.2.3".to_string())]);
    assert_eq!(
        plan.archives,
        vec![("vendor".to_string(), "v.tar.gz".to_string(), 0), ("deps".to_string(), "d.zip".to_string(), 2)]
    );
}

#[test]
fn every_escaping_key_is_refused_at_once_before_any_other_check() {
    let error = validate_mapping(
        MAPPING,
        doc(
            vec![("../escape", contents("x")), ("ok", FileTable { contents: None, source: None, executable: None })],
            vec![("/abs", "t"), ("dup", "t"), ("dup", "u")],
            vec![("a/../..", "v.tar", None)],
        ),
    )
    .unwrap_err();
    match error {
        Error::Refused(Refused::Containment { paths, origin, .. }) => {
            assert_eq!(paths, vec!["../escape", "/abs", "a/../.."]);
            assert_eq!(origin, Origin::Mapping { path: MAPPING.to_string() });
        }
        other => panic!("expected a containment refusal, got {other:?}"),
    }
}

#[test]
fn a_path_projected_twice_is_refused() {
    let error = validate_mapping(
        MAPPING,
        doc(vec![("a/b", contents("1"))], vec![("a/x/../b", "t")], vec![]),
    )
    .unwrap_err();
    assert!(matches!(error, Error::MappingDuplicate { key, .. } if key == "a/b"));
    let error = validate_mapping(
        MAPPING,
        doc(vec![], vec![], vec![("v/", "a.tar", None), ("v", "b.tar", None)]),
    )
    .unwrap_err();
    assert!(matches!(error, Error::MappingDuplicate { key, .. } if key == "v"));
}

#[test]
fn a_files_entry_must_choose_exactly_one_body() {
    for table in [
        FileTable { contents: None, source: None, executable: None },
        FileTable { contents: Some("x".to_string()), source: Some("y".to_string()), executable: None },
    ] {
        let error = validate_mapping(MAPPING, doc(vec![("k2", contents("fine")), ("raw", table)], vec![], vec![]));
        assert!(error.is_err());
    }
    let error = validate_mapping(
        MAPPING,
        doc(vec![("raw", FileTable { contents: None, source: None, executable: None })], vec![], vec![]),
    )
    .unwrap_err();
    assert!(matches!(error, Error::MappingContentsXorSource { key, .. } if key == "raw"));
}

#[test]
fn inline_contents_are_their_utf8_bytes_and_not_executable_by_default() {
    assert_eq!(inline_entry("é\n", None), Entry::File { contents: "é\n".as_bytes().to_vec(), executable: false });
    assert_eq!(inline_entry("x", Some(true)), Entry::File { contents: b"x".to_vec(), executable: true });
}

#[test]
fn the_tree_labels_each_entry_with_the_mapping() {
    let tree = mapping_tree(
        MAPPING,
        vec![("a".to_string(), Entry::File { contents: b"1".to_vec(), executable: false })],
        vec![("l".to_string(), "a".to_string())],
    );
    assert_eq!(tree.len(), 2);
    assert_eq!(tree.get("l"), Some(&Entry::Symlink { target: "a".to_string() }));
    assert_eq!(tree.origin("a"), Origin::Mapping { path: MAPPING.to_string() });
    assert_eq!(tree.origin("missing"), Origin::Caller);
}

#[test]
fn an_archive_member_landing_on_a_mapped_path_is_refused() {
    let mut tree = mapping_tree(
        MAPPING,
        vec![("vendor/x".to_string(), Entry::File { contents: b"1".to_vec(), executable: false })],
        vec![],
    );
    let mut expansion = Expansion::new("/work/v.tar".to_string(), ArchiveFormat::Tar, 0, "vendor".to_string());
    expansion.insert("y".to_string(), Entry::File { contents: b"y".to_vec(), executable: false }).unwrap();
    let expanded = expansion.finish(Some(MAPPING.to_string())).unwrap();
    merge_expansion(&mut tree, MAPPING, "/work/v.tar", &expanded).unwrap();
    assert_eq!(
        tree.origin("vendor/y"),
        Origin::Archive { path: "/work/v.tar".to_string(), via: Some(MAPPING.to_string()) }
    );
    let mut clash = Expansion::new("/work/w.tar".to_string(), ArchiveFormat::Tar, 0, "vendor".to_string());
    clash.insert("x".to_string(), Entry::File { contents: b"2".to_vec(), executable: false }).unwrap();
    let expanded = clash.finish(Some(MAPPING.to_string())).unwrap();
    let error = merge_expansion(&mut tree, MAPPING, "/work/w.tar", &expanded).unwrap_err();
    assert!(matches!(error, Error::MappingDuplicate { key, .. } if key == "vendor/x"));
}

#[test]
fn a_desired_tree_keeps_the_last_entry_inserted_at_a_path() {
    let mut desired = Desired::new();
    assert!(desired.is_empty());
    assert!(desired.insert("a".to_string(), Entry::Symlink { target: "1".to_string() }, Origin::Files));
    assert!(!desired.insert("a".to_string(), Entry::Symlink { target: "2".to_string() }, Origin::Caller));
    assert_eq!(desired.len(), 1);
    assert_eq!(desired.get("a"), Some(&Entry::Symlink { target: "2".to_string() }));
    assert_eq!(desired.origin("a"), Origin::Caller);
    assert!(desired.contains_key("a"));
    assert!(!desired.contains_key("b"));
    let from = Desired::from_caller(vec![
        ("x".to_string(), Entry::Symlink { target: "1".to_string() }),
        ("x".to_string(), Entry::Symlink { target: "2".to_string() }),
    ]);
    assert_eq!(from.len(), 1);
    assert_eq!(from.iter()[0].1, &Entry::Symlink { target: "2".to_string() });
    assert_eq!(from.sources()[0].1, &Origin::Caller);
}
