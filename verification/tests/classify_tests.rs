use libproiectio::{
    classify, desired_executable, desired_hash, sha256_hex, status, Entry, Manifest, ManifestEntry,
    Observation, Observations, PathShape, PathState, Placement, Row,
};

const OWNER: &str = "site";
const MARKER: &str = "# proiectio";

fn file(contents: &str, executable: bool) -> Entry {
    Entry::File { contents: contents.as_bytes().to_vec(), executable }
}

fn link(target: &str) -> Entry {
    Entry::Symlink { target: target.to_owned() }
}

fn block(body: &str, placement: Placement) -> Entry {
    Entry::Block { body: body.as_bytes().to_vec(), marker: MARKER.to_owned(), placement }
}

fn recorded(entry: &Entry, owners: &[&str]) -> ManifestEntry {
    ManifestEntry {
        kind: entry.kind(),
        hash: desired_hash(entry),
        executable: desired_executable(entry),
        owners: owners.iter().map(|owner| (*owner).to_owned()).collect(),
    }
}

fn on_disk(entry: &Entry) -> Observation {
    match entry {
        Entry::File { contents, executable } => {
            Observation::File { hash: sha256_hex(contents), executable: *executable }
        }
        Entry::Symlink { target } => {
            Observation::Symlink { hash: sha256_hex(target.as_bytes()), target: Some(target.clone()) }
        }
        Entry::Block { body, .. } => Observation::Block {
            hash: Some(sha256_hex(body)),
            newline_terminated: true,
            occurrences: 1,
            desired: None,
        },
    }
}

fn no_region(newline_terminated: bool) -> Observation {
    Observation::Block { hash: None, newline_terminated, occurrences: 0, desired: None }
}

fn edited_region(body: &str, occurrences: usize) -> Observation {
    Observation::Block {
        hash: Some(sha256_hex(body.as_bytes())),
        newline_terminated: true,
        occurrences,
        desired: None,
    }
}

fn manifest_of(entries: &[(&str, ManifestEntry)]) -> Manifest {
    let mut manifest = Manifest::new();
    for (path, entry) in entries {
        manifest.insert(path.to_string(), entry.clone());
    }
    manifest
}

/// Every ancestor no case declares is an observed directory.
fn observed(paths: &[(&str, Observation)]) -> Observations {
    let mut observed: Vec<(String, Observation)> =
        paths.iter().map(|(path, o)| (path.to_string(), o.clone())).collect();
    for (path, _) in paths {
        let mut ancestor = path.to_string();
        while let Some(cut) = ancestor.rfind('/') {
            ancestor.truncate(cut);
            if !observed.iter().any(|(p, _)| *p == ancestor) {
                observed.push((ancestor.clone(), Observation::Directory));
            }
        }
    }
    Observations { paths: observed, unreadable: vec![] }
}

fn verdict(rows: &[(String, Row)], path: &str) -> PathState {
    rows.iter().find(|(p, _)| p == path).unwrap_or_else(|| panic!("no row at {path}")).1.verdict
}

#[test]
fn clean_when_disk_matches_the_recorded_entry() {
    let entry = file("alpha\n", false);
    let manifest = manifest_of(&[("a.txt", recorded(&entry, &[OWNER]))]);
    let observations = observed(&[("a.txt", on_disk(&entry))]);
    assert_eq!(verdict(&classify(&manifest, &observations, None), "a.txt"), PathState::Clean);
}

#[test]
fn drifted_when_bytes_differ() {
    let manifest = manifest_of(&[("a.txt", recorded(&file("alpha\n", false), &[OWNER]))]);
    let observations = observed(&[("a.txt", on_disk(&file("edited\n", false)))]);
    assert_eq!(verdict(&classify(&manifest, &observations, None), "a.txt"), PathState::Drifted);
}

#[test]
fn drifted_when_the_executable_bit_differs() {
    let manifest = manifest_of(&[("run.sh", recorded(&file("#!/bin/sh\n", false), &[OWNER]))]);
    let observations = observed(&[("run.sh", on_disk(&file("#!/bin/sh\n", true)))]);
    assert_eq!(verdict(&classify(&manifest, &observations, None), "run.sh"), PathState::Drifted);
}

#[test]
fn drifted_when_the_kind_differs() {
    let manifest = manifest_of(&[("a", recorded(&file("alpha\n", false), &[OWNER]))]);
    let observations = observed(&[("a", on_disk(&link("alpha\n")))]);
    assert_eq!(verdict(&classify(&manifest, &observations, None), "a"), PathState::Drifted);
}

#[test]
fn drifted_when_a_recorded_path_is_now_a_directory() {
    let manifest = manifest_of(&[("a", recorded(&file("alpha\n", false), &[OWNER]))]);
    let observations = observed(&[("a", Observation::Directory)]);
    assert_eq!(verdict(&classify(&manifest, &observations, None), "a"), PathState::Drifted);
}

#[test]
fn missing_when_a_recorded_path_is_gone() {
    let manifest = manifest_of(&[("a.txt", recorded(&file("alpha\n", false), &[OWNER]))]);
    let observations = observed(&[("a.txt", Observation::Absent)]);
    assert_eq!(verdict(&classify(&manifest, &observations, None), "a.txt"), PathState::Missing);
}

#[test]
fn missing_when_the_snapshot_lacks_a_recorded_path() {
    let manifest = manifest_of(&[("a.txt", recorded(&file("alpha\n", false), &[OWNER]))]);
    let observations = observed(&[]);
    assert_eq!(verdict(&classify(&manifest, &observations, None), "a.txt"), PathState::Missing);
}

#[test]
fn foreign_when_on_disk_and_unrecorded() {
    let manifest = Manifest::new();
    let observations = observed(&[("notes.txt", on_disk(&file("mine\n", false)))]);
    assert_eq!(verdict(&classify(&manifest, &observations, None), "notes.txt"), PathState::Foreign);
}

#[test]
fn an_unrecorded_directory_classifies_foreign() {
    let rows = classify(&Manifest::new(), &observed(&[("existing", Observation::Directory)]), None);
    assert_eq!(verdict(&rows, "existing"), PathState::Foreign);
}

#[test]
fn an_unrecorded_node_of_another_kind_classifies_foreign() {
    let rows = classify(&Manifest::new(), &observed(&[("pipe", Observation::Other)]), None);
    assert_eq!(verdict(&rows, "pipe"), PathState::Foreign);
}

#[test]
fn a_link_with_a_matching_target_classifies_clean_and_a_changed_one_drifted() {
    let entry = link("../shared/rc");
    let manifest = manifest_of(&[("kept", recorded(&entry, &[OWNER])), ("moved", recorded(&entry, &[OWNER]))]);
    let observations = observed(&[("kept", on_disk(&entry)), ("moved", on_disk(&link("/etc/rc")))]);
    let rows = classify(&manifest, &observations, None);
    assert_eq!(verdict(&rows, "kept"), PathState::Clean);
    assert_eq!(verdict(&rows, "moved"), PathState::Drifted);
}

#[test]
fn a_link_target_edited_to_non_utf8_classifies_drifted() {
    let entry = link("ok");
    let manifest = manifest_of(&[("l", recorded(&entry, &[OWNER]))]);
    let observations = observed(&[("l", Observation::Symlink { hash: sha256_hex(b"\xff\xfe"), target: None })]);
    assert_eq!(verdict(&classify(&manifest, &observations, None), "l"), PathState::Drifted);
}

#[test]
fn a_recorded_block_classifies_over_its_region() {
    let entry = block("managed\n", Placement::Append);
    let manifest = manifest_of(&[("conf", recorded(&entry, &[OWNER]))]);
    let cases: &[(Observation, PathState)] = &[
        (on_disk(&entry), PathState::Clean),
        (edited_region("edited\n", 1), PathState::Drifted),
        (no_region(true), PathState::Missing),
        (Observation::Absent, PathState::Missing),
        (Observation::Directory, PathState::Drifted),
    ];
    for (observation, want) in cases {
        let rows = classify(&manifest, &observed(&[("conf", observation.clone())]), None);
        assert_eq!(verdict(&rows, "conf"), *want, "{observation:?}");
    }
    let whole = manifest_of(&[("conf", recorded(&file("whole\n", false), &[OWNER]))]);
    for observation in [no_region(true), on_disk(&entry)] {
        let rows = classify(&whole, &observed(&[("conf", observation.clone())]), None);
        assert_eq!(verdict(&rows, "conf"), PathState::Drifted, "{observation:?}");
    }
}

#[test]
fn the_state_subtree_never_classifies() {
    let manifest = manifest_of(&[("a.txt", recorded(&file("alpha\n", false), &[OWNER]))]);
    let observations = observed(&[
        ("a.txt", on_disk(&file("alpha\n", false))),
        (".proiectio", Observation::Directory),
        (".proiectio/records", on_disk(&file("{\"version\":1}", false))),
    ]);
    let rows = classify(&manifest, &observations, Some(".proiectio"));
    assert_eq!(rows.iter().map(|(p, _)| p.as_str()).collect::<Vec<_>>(), ["a.txt"]);
}

#[test]
fn a_row_states_the_records_shape_and_owners() {
    let manifest = manifest_of(&[("l", recorded(&link("t"), &["a", "b"]))]);
    let rows = classify(&manifest, &observed(&[("l", on_disk(&link("t")))]), None);
    let facts = rows[0].1.facts.as_ref().unwrap();
    assert_eq!(facts.shape, Some(PathShape::Symlink { target: Some("t".to_string()) }));
    assert_eq!(facts.owners, vec!["a".to_string(), "b".to_string()]);
}

#[test]
fn a_status_report_leaves_out_unrecorded_directories() {
    let manifest = manifest_of(&[("a", recorded(&file("x", false), &[OWNER]))]);
    let observations = observed(&[("dir", Observation::Directory), ("stray", on_disk(&file("y", false)))]);
    let rows = status(&manifest, &observations, None);
    let paths: Vec<&str> = rows.iter().map(|(p, _)| p.as_str()).collect();
    assert_eq!(paths, ["stray", "a"]);
}
