use libproiectio::{
    at_action_key, check_leaf, check_plan_keys, file_mode, link_may_publish, occupied_refusal, overwrite_block,
    phase, record, release, remove_block, removal_ancestors, removal_outcome, schedule, settle_action,
    settling_stalled, sha256_hex, validate, write_block, Action, ApplyOutcome, BlockWrite, Entry,
    EntryKind, Error, ExternalTargetPolicy, Leaf, Manifest, ManifestEntry, NodeSignature, Origin,
    Phase, Placement, Plan, Refusal, Refused,
};

fn file(text: &str) -> Entry {
    Entry::File { contents: text.as_bytes().to_vec(), executable: false }
}

fn link_signature(target: &str) -> NodeSignature {
    NodeSignature { kind: EntryKind::Symlink, hash: sha256_hex(target.as_bytes()), executable: false }
}

fn plan(actions: Vec<(&str, Action)>) -> Plan {
    Plan {
        owner: "own".to_string(),
        actions: actions.into_iter().map(|(p, a)| (p.to_string(), a)).collect(),
        origin: Origin::Caller,
        external_targets: ExternalTargetPolicy::Refuse,
    }
}

#[test]
fn a_run_removes_first_in_reverse_then_steps_then_links_then_link_skips() {
    let p = plan(vec![
        ("a", Action::Remove { expected: None }),
        ("b", Action::Write { entry: file("b") }),
        ("c", Action::Write { entry: Entry::Symlink { target: "b".to_string() } }),
        ("d", Action::Refuse { refusal: Refusal::Foreign }),
        ("e", Action::Skip { entry: Entry::Symlink { target: "b".to_string() }, expected: link_signature("b") }),
        ("f", Action::Remove { expected: None }),
        ("g", Action::Release),
    ]);
    let order = schedule(&p);
    assert_eq!(order.removals, vec![5, 0]);
    assert_eq!(order.steps, vec![1, 6]);
    assert_eq!(order.links, vec![2]);
    assert_eq!(order.link_skips, vec![4]);
    assert_eq!(phase(&Action::RemoveDirectory), Phase::Removal);
    assert_eq!(phase(&Action::Refuse { refusal: Refusal::Drift }), Phase::Untouched);
}

#[test]
fn a_removal_may_empty_each_proper_ancestor_deepest_first() {
    assert_eq!(removal_ancestors("a/b/c"), vec!["a/b".to_string(), "a".to_string()]);
    assert!(removal_ancestors("top").is_empty());
}

#[test]
fn recording_a_write_adds_the_owner_and_releasing_the_last_owner_drops_the_record() {
    let mut manifest = Manifest::new();
    record(&mut manifest, "x", &file("hello"), "one");
    record(&mut manifest, "x", &file("hello"), "two");
    let entry = manifest.get("x").unwrap();
    assert_eq!(entry.kind, EntryKind::File);
    assert_eq!(entry.hash, sha256_hex(b"hello"));
    assert_eq!(entry.owners, vec!["one".to_string(), "two".to_string()]);
    release(&mut manifest, "x", "one");
    assert_eq!(manifest.get("x").unwrap().owners, vec!["two".to_string()]);
    release(&mut manifest, "x", "two");
    assert!(manifest.get("x").is_none());
}

#[test]
fn a_plan_carrying_a_refusal_is_declined_before_anything_is_touched() {
    let manifest = Manifest::new();
    assert!(validate(&manifest, &plan(vec![("ok", Action::Write { entry: file("x") })])).is_ok());
    let error = validate(&manifest, &plan(vec![("ok", Action::Refuse { refusal: Refusal::Foreign })])).unwrap_err();
    assert!(matches!(error, Error::Refused(Refused::Foreign { paths }) if paths == vec!["ok".to_string()]));
    let error = validate(&manifest, &plan(vec![("a/../b", Action::Write { entry: file("x") })])).unwrap_err();
    assert!(matches!(error, Error::Refused(Refused::Containment { paths, .. }) if paths == vec!["a/../b".to_string()]));
}

#[test]
fn a_block_splices_into_its_container_and_strips_back_out() {
    let manifest = Manifest::new();
    let author = b"author\n".to_vec();
    let spliced = match write_block(&manifest, "rc", Some(&author[..]), b"body\n", "# managed", Placement::Append).unwrap() {
        BlockWrite::Spliced(bytes) => bytes,
        BlockWrite::Adopted => panic!("nothing to adopt"),
    };
    assert_eq!(spliced, b"author\n# managed\nbody\n".to_vec());
    assert_eq!(
        write_block(&manifest, "rc", Some(&spliced[..]), b"body\n", "# managed", Placement::Append).unwrap(),
        BlockWrite::Adopted
    );
    let hash = sha256_hex(b"body\n");
    let rewritten = overwrite_block("rc", &spliced, "# managed", Placement::Append, &hash, b"new\n", "# managed", Placement::Append).unwrap();
    assert_eq!(rewritten, b"author\n# managed\nnew\n".to_vec());
    let stripped = remove_block("rc", Some(&spliced), "# managed", Placement::Append, Some(&hash)).unwrap();
    assert_eq!(stripped, Some(author.clone()));
    assert!(matches!(
        remove_block("rc", Some(&spliced), "# managed", Placement::Append, Some("stale")),
        Err(Error::Refused(Refused::Drift { .. }))
    ));
    assert!(matches!(
        write_block(&manifest, "rc", Some(&b"no newline"[..]), b"b\n", "# m", Placement::Append),
        Err(Error::Refused(Refused::Block { .. }))
    ));
}

#[test]
fn small_rules_of_a_write() {
    assert_eq!(file_mode(true), 0o755);
    assert_eq!(file_mode(false), 0o644);
    assert!(at_action_key("a/b", "a/b").is_ok());
    assert!(matches!(
        at_action_key("a/b", "real/b"),
        Err(Error::Refused(Refused::Containment { paths, .. })) if paths == vec!["a/b".to_string()]
    ));
    let mut manifest = Manifest::new();
    assert!(matches!(occupied_refusal(&manifest, "p"), Error::Refused(Refused::Foreign { .. })));
    manifest.insert(
        "p".to_string(),
        ManifestEntry { kind: EntryKind::File, hash: String::new(), executable: false, owners: vec![] },
    );
    assert!(matches!(occupied_refusal(&manifest, "p"), Error::Refused(Refused::Drift { .. })));
}

#[test]
fn a_leaf_that_still_matches_its_signature_passes_and_any_change_is_drift() {
    let expected = NodeSignature { kind: EntryKind::File, hash: sha256_hex(b"x"), executable: true };
    let same = Leaf::File { hash: sha256_hex(b"x"), executable: true };
    assert!(check_leaf("p", &expected, &same).is_ok());
    let mode_changed = Leaf::File { hash: sha256_hex(b"x"), executable: false };
    assert!(matches!(
        check_leaf("p", &expected, &mode_changed),
        Err(Error::Refused(Refused::Drift { paths })) if paths == vec!["p".to_string()]
    ));
    assert!(matches!(check_leaf("p", &expected, &Leaf::Absent), Err(Error::Refused(Refused::Drift { .. }))));
    let link = link_signature("t");
    assert!(check_leaf("l", &link, &Leaf::Symlink { hash: sha256_hex(b"t") }).is_ok());
    assert!(check_leaf("l", &link, &Leaf::Other).is_err());
    let block = NodeSignature {
        kind: EntryKind::Block { marker: "# m".to_string(), placement: Placement::Append },
        hash: sha256_hex(b"body\n"),
        executable: false,
    };
    let container = b"top\n# m\nbody\n".to_vec();
    assert!(check_leaf("c", &block, &Leaf::Container { bytes: container }).is_ok());
    let twice = b"# m\nbody\n# m\n".to_vec();
    assert!(check_leaf("c", &block, &Leaf::Container { bytes: twice }).is_err());
}

#[test]
fn a_link_waits_for_the_links_its_resolution_passes_and_a_pass_holding_all_of_them_refuses() {
    let asked = vec!["pivot".to_string(), "pivot/x".to_string()];
    assert!(link_may_publish(true, &asked, &vec!["other".to_string()]));
    assert!(!link_may_publish(true, &asked, &vec!["pivot".to_string()]));
    assert!(!link_may_publish(false, &asked, &vec![]));
    let held = vec![("a".to_string(), "../out".to_string())];
    assert!(matches!(
        settling_stalled(1, held.clone(), &Origin::Caller),
        Err(Error::Refused(Refused::ExternalTarget { links, .. })) if links == held
    ));
    assert_eq!(settling_stalled(2, held.clone(), &Origin::Caller).unwrap(), held);
}

#[test]
fn a_removal_expecting_nothing_only_forgets() {
    assert_eq!(removal_outcome(&None), ApplyOutcome::Forgot);
    assert_eq!(removal_outcome(&Some(link_signature("t"))), ApplyOutcome::Removed);
}

#[test]
fn a_block_never_creates_its_container() {
    let manifest = Manifest::new();
    assert!(matches!(
        write_block(&manifest, "rc", None, b"body\n", "# managed", Placement::Append),
        Err(Error::Refused(Refused::Block { blocks })) if blocks == vec![("rc".to_string(), libproiectio::BlockFault::ContainerMissing)]
    ));
}

#[test]
fn a_plan_removing_past_the_walk_depth_is_named_and_removes_nothing() {
    let parent = vec!["d"; 65].join("/");
    let path = format!("{parent}/leaf");
    let mut manifest = Manifest::new();
    manifest.insert(
        path.clone(),
        ManifestEntry {
            kind: EntryKind::File,
            hash: sha256_hex(b"deep"),
            executable: false,
            owners: vec!["own".to_string()],
        },
    );
    let plan = plan(vec![(path.as_str(), Action::Remove { expected: None })]);
    assert!(matches!(
        validate(&manifest, &plan),
        Err(Error::DestinationTooDeep { path: named, limit: 64 }) if named == parent
    ));
}

#[test]
fn a_plan_keying_one_path_twice_is_a_tree_conflict() {
    let once = plan(vec![("a", Action::Release), ("b", Action::Release)]);
    assert!(check_plan_keys(&once).is_ok());
    let twice = plan(vec![("a", Action::Release), ("b", Action::Release), ("a", Action::NotRecorded)]);
    assert!(matches!(
        check_plan_keys(&twice),
        Err(Error::Refused(Refused::TreeConflict { paths, .. })) if paths == vec!["a".to_string()]
    ));
}

#[test]
fn settling_an_action_keeps_the_record_it_leaves_and_reports_its_outcome() {
    let mut manifest = Manifest::new();
    let shared = ManifestEntry {
        kind: EntryKind::File,
        hash: sha256_hex(b"x"),
        executable: false,
        owners: vec!["other".to_string(), "own".to_string()],
    };
    manifest.insert("shared".to_string(), shared);
    manifest.insert(
        "gone".to_string(),
        ManifestEntry { kind: EntryKind::File, hash: sha256_hex(b"x"), executable: false, owners: vec!["own".to_string()] },
    );

    let forgot = settle_action(&mut manifest, "gone", &Action::Remove { expected: None }, "own", false);
    assert_eq!(forgot, Some(ApplyOutcome::Forgot));
    assert!(manifest.get("gone").is_none());

    let written = settle_action(&mut manifest, "new", &Action::Write { entry: file("n\n") }, "own", true);
    assert_eq!(written, Some(ApplyOutcome::Written));
    let recorded = manifest.get("new").unwrap();
    assert_eq!(recorded.hash, sha256_hex(b"n\n"));
    assert_eq!(recorded.owners, vec!["own".to_string()]);

    let released = settle_action(&mut manifest, "shared", &Action::Release, "own", false);
    assert_eq!(released, Some(ApplyOutcome::Released));
    assert_eq!(manifest.get("shared").unwrap().owners, vec!["other".to_string()]);

    let refused = settle_action(
        &mut manifest,
        "shared",
        &Action::Refuse { refusal: Refusal::Foreign },
        "own",
        false,
    );
    assert_eq!(refused, None);
    assert_eq!(manifest.get("shared").unwrap().owners, vec!["other".to_string()]);
}

#[test]
fn an_adopted_block_write_reports_a_skip_and_a_removal_expecting_a_node_reports_removed() {
    let mut manifest = Manifest::new();
    let block = Entry::Block {
        body: b"line\n".to_vec(),
        marker: "# managed".to_string(),
        placement: Placement::Append,
    };
    let outcome = settle_action(&mut manifest, "rc", &Action::Write { entry: block }, "own", true);
    assert_eq!(outcome, Some(ApplyOutcome::Skipped));
    assert!(manifest.get("rc").is_some());
    let expected = NodeSignature { kind: EntryKind::File, hash: sha256_hex(b"x"), executable: false };
    let removed = settle_action(&mut manifest, "rc", &Action::Remove { expected: Some(expected) }, "own", false);
    assert_eq!(removed, Some(ApplyOutcome::Removed));
    assert!(manifest.get("rc").is_none());
}
