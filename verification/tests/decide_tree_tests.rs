use libproiectio::{
    check_depth, contending_keys, directory_action, directory_in_the_way, drifted_directory,
    finish_removal, judge_scope, key_fates, origins_of, orphan_verdict, planned_hop, removal_scope, target_refusal, Action, Desired,
    DriftPolicy, Entry, EntryKind, Error, ExternalTargetPolicy, Fate, Hop, Manifest,
    ManifestEntry, Observation, Observations, Origin, OrphanVerdict, Refusal, RemovalScope,
    MAX_WALK_DEPTH,
};

fn file(text: &str) -> Entry {
    Entry::File { contents: text.as_bytes().to_vec(), executable: false }
}

fn link(target: &str) -> Entry {
    Entry::Symlink { target: target.to_string() }
}

fn owned(owners: &[&str]) -> ManifestEntry {
    ManifestEntry {
        kind: EntryKind::File,
        hash: String::new(),
        executable: false,
        owners: owners.iter().map(|o| o.to_string()).collect(),
    }
}

fn observations(paths: &[(&str, Observation)], unreadable: &[&str]) -> Observations {
    Observations {
        paths: paths.iter().map(|(p, o)| (p.to_string(), o.clone())).collect(),
        unreadable: unreadable.iter().map(|u| u.to_string()).collect(),
    }
}

#[test]
fn keys_claiming_one_location_or_nesting_are_refused_together() {
    let mut desired = Desired::new();
    for key in ["a/b", "a/x/../b", "c", "c/d", "e", "../out", ".state/x"] {
        desired.insert(key.to_string(), file("x"), Origin::Caller);
    }
    let fates = key_fates(&desired, Some(".state"));
    let conflict = |fate: &Fate| match fate {
        Fate::Refused { refusal: Refusal::TreeConflict { paths } } => {
            let mut p = paths.clone();
            p.sort();
            p
        }
        other => panic!("expected a tree conflict, got {other:?}"),
    };
    assert_eq!(conflict(&fates[0]), vec!["a/x/../b".to_string()]);
    assert_eq!(conflict(&fates[1]), vec!["a/b".to_string()]);
    assert_eq!(conflict(&fates[2]), vec!["c/d".to_string()]);
    assert_eq!(conflict(&fates[3]), vec!["c".to_string()]);
    assert!(matches!(&fates[4], Fate::Admitted { location } if location == "e"));
    assert!(matches!(&fates[5], Fate::Refused { refusal: Refusal::Containment { through: None } }));
    assert!(matches!(&fates[6], Fate::Refused { refusal: Refusal::Containment { through: None } }));
}

#[test]
fn a_whole_node_claim_contends_with_every_claim_and_regions_only_over_one_marker() {
    let claims = vec![
        ("rc".to_string(), Some("#a".to_string()), "k1".to_string()),
        ("rc".to_string(), Some("#b".to_string()), "k2".to_string()),
        ("rc".to_string(), Some("#a".to_string()), "k3".to_string()),
        ("x".to_string(), None, "k4".to_string()),
        ("x".to_string(), Some("#a".to_string()), "k5".to_string()),
        ("y".to_string(), None, "k6".to_string()),
    ];
    let found = contending_keys(&claims);
    assert_eq!(found[0], vec!["k3".to_string()]);
    assert!(found[1].is_empty());
    assert_eq!(found[2], vec!["k1".to_string()]);
    assert_eq!(found[3], vec!["k5".to_string()]);
    assert_eq!(found[4], vec!["k4".to_string()]);
    assert!(found[5].is_empty());
}

#[test]
fn a_write_placed_past_the_walk_depth_refuses_the_plan() {
    let deep = vec!["d"; MAX_WALK_DEPTH + 2].join("/");
    let actions = vec![
        ("shallow".to_string(), Action::Write { entry: file("x") }),
        (deep.clone(), Action::Release),
        (deep.clone(), Action::Write { entry: file("x") }),
    ];
    match check_depth(&actions) {
        Err(Error::DestinationTooDeep { path, limit }) => {
            assert_eq!(path, vec!["d"; MAX_WALK_DEPTH + 1].join("/"));
            assert_eq!(limit, MAX_WALK_DEPTH);
        }
        other => panic!("expected DestinationTooDeep, got {other:?}"),
    }
    assert!(check_depth(&actions[..2].to_vec()).is_ok());
}

#[test]
fn a_removal_scope_normalizes_what_it_can_and_refuses_the_rest() {
    let requested: Vec<String> = ["a/../b", "b", "../out", ".state"].iter().map(|s| s.to_string()).collect();
    let (admitted, refused) = removal_scope(&requested, Some(".state"));
    assert_eq!(admitted, vec!["b".to_string()]);
    assert_eq!(refused, vec!["../out".to_string(), ".state".to_string()]);
}

#[test]
fn a_whole_owner_removal_judges_everything_and_a_named_one_only_its_paths() {
    assert_eq!(judge_scope(RemovalScope::Everything, None), (None, vec![]));
    let requested: Vec<String> = ["x/y/../z", "/abs", "x/./y"].iter().map(|s| s.to_string()).collect();
    assert_eq!(
        judge_scope(RemovalScope::Paths(&requested), None),
        (Some(vec!["x/z".to_string()]), vec!["/abs".to_string(), "x/./y".to_string()])
    );
    let nothing: Vec<String> = vec![];
    assert_eq!(judge_scope(RemovalScope::Paths(&nothing), None), (Some(vec![]), vec![]));
}

#[test]
fn recorded_paths_sort_into_orphans_and_the_rest() {
    let named = vec!["kept".to_string()];
    let v = |path: &str, owners: &[&str], judged: Option<&Vec<String>>| {
        orphan_verdict("me", path, &owned(owners), &named, Some(".state"), judged)
    };
    assert_eq!(v("kept", &["me"], None), OrphanVerdict::NotOrphan);
    assert_eq!(v("theirs", &["you"], None), OrphanVerdict::NotOrphan);
    assert_eq!(v(".state/m", &["me"], None), OrphanVerdict::NotOrphan);
    assert_eq!(v("a/../b", &["me"], None), OrphanVerdict::Containment);
    assert_eq!(v("shared", &["me", "you"], None), OrphanVerdict::Release);
    assert_eq!(v("mine", &["me"], None), OrphanVerdict::Judge);
    let judged = vec!["other".to_string()];
    assert_eq!(v("mine", &["me"], Some(&judged)), OrphanVerdict::NotOrphan);
}

#[test]
fn a_desired_links_target_is_graded_against_the_tree_as_it_will_stand() {
    let admitted = vec![("pivot".to_string(), link("/etc")), ("ok".to_string(), link("real"))];
    let seen = observations(&[("disk", Observation::Symlink { hash: String::new(), target: Some("../out".to_string()) })], &[]);
    assert!(matches!(planned_hop(&admitted, &seen, "pivot", &vec![]), Hop::Link(t) if t == "/etc"));
    assert!(matches!(planned_hop(&admitted, &seen, "disk", &vec![]), Hop::Link(t) if t == "../out"));
    assert!(matches!(planned_hop(&admitted, &seen, "disk", &vec!["disk".to_string()]), Hop::Terminal));
    let refusal = |entry: &Entry, vacated: &Vec<String>, policy| target_refusal("l", entry, &admitted, &seen, vacated, policy);
    assert!(refusal(&link("ok/x"), &vec![], ExternalTargetPolicy::Refuse).is_none());
    assert!(matches!(refusal(&link("pivot/passwd"), &vec![], ExternalTargetPolicy::Refuse), Some(Refusal::ExternalTarget { .. })));
    assert!(matches!(refusal(&link("disk/x"), &vec![], ExternalTargetPolicy::Refuse), Some(Refusal::ExternalTarget { .. })));
    assert!(refusal(&link("disk/x"), &vec!["disk".to_string()], ExternalTargetPolicy::Refuse).is_none());
    assert!(refusal(&link("pivot/passwd"), &vec![], ExternalTargetPolicy::Allow).is_none());
    assert!(matches!(refusal(&link(""), &vec![], ExternalTargetPolicy::Allow), Some(Refusal::InvalidTarget { .. })));
    assert!(refusal(&file("x"), &vec![], ExternalTargetPolicy::Refuse).is_none());
}

#[test]
fn a_directory_in_the_way_is_refused_unless_the_run_empties_it() {
    let manifest = Manifest::new();
    let seen = observations(&[("d", Observation::Directory), ("d/f", Observation::File { hash: String::new(), executable: false })], &[]);
    assert!(matches!(directory_in_the_way("d", &manifest, &seen, &vec![]), Some(Refusal::DirectoryInTheWay { holding, .. }) if holding.len() == 1 && holding[0].0 == "d/f"));
    assert!(directory_in_the_way("d", &manifest, &seen, &vec!["d/f".to_string()]).is_none());
    let empty = observations(&[("d", Observation::Directory)], &[]);
    assert!(matches!(directory_in_the_way("d", &manifest, &empty, &vec![]), Some(Refusal::DirectoryInTheWay { holding, unreadable }) if holding.is_empty() && unreadable.is_empty()));
    let unreadable = observations(&[("d", Observation::Directory)], &["d"]);
    assert!(matches!(directory_in_the_way("d", &manifest, &unreadable, &vec!["d/x".to_string()]), Some(Refusal::DirectoryInTheWay { unreadable, .. }) if unreadable == vec!["d".to_string()]));
    assert!(matches!(directory_action("me", "d", &file("x"), &manifest, &seen, &vec!["d/f".to_string()], DriftPolicy::Refuse), Some(Action::Write { .. })));
    assert!(directory_action("me", "f", &file("x"), &manifest, &seen, &vec![], DriftPolicy::Refuse).is_none());
}

#[test]
fn a_record_drifted_into_an_empty_directory_goes_only_where_the_drift_is_lifted() {
    let mut manifest = Manifest::new();
    manifest.insert("d".to_string(), owned(&["me"]));
    let seen = observations(&[("d", Observation::Directory)], &[]);
    let clear = || Action::RemoveDirectory;
    assert!(matches!(drifted_directory("me", "d", &owned(&["me"]), &manifest, &seen, DriftPolicy::Refuse, clear()), Some(Action::Refuse { refusal: Refusal::Drift })));
    assert!(matches!(drifted_directory("me", "d", &owned(&["me"]), &manifest, &seen, DriftPolicy::Overwrite, clear()), Some(Action::RemoveDirectory)));
    assert!(drifted_directory("me", "d", &owned(&["me", "you"]), &manifest, &seen, DriftPolicy::Overwrite, clear()).is_none());
    let held = observations(&[("d", Observation::Directory), ("d/x", Observation::Other)], &[]);
    assert!(matches!(drifted_directory("me", "d", &owned(&["me"]), &manifest, &held, DriftPolicy::Overwrite, clear()), Some(Action::Refuse { refusal: Refusal::DirectoryInTheWay { .. } })));
}

#[test]
fn sourced_keys_report_their_origin_where_their_action_landed() {
    let mapping = Origin::Mapping { path: "/m.toml".to_string() };
    let mut desired = Desired::from_source(
        vec![("a/../b".to_string(), file("x")), ("kept".to_string(), file("y")), ("../out".to_string(), file("z"))],
        mapping.clone(),
    );
    desired.insert("mine".to_string(), file("w"), Origin::Caller);
    let keys = vec!["kept".to_string(), "b".to_string()];
    let origins = origins_of(&desired, &keys);
    assert_eq!(origins, vec![("b".to_string(), mapping.clone()), ("kept".to_string(), mapping)]);
}

#[test]
fn a_removal_refuses_what_leaves_and_says_which_named_paths_it_does_not_hold() {
    let planned = vec![("held".to_string(), Action::Release)];
    let refused = vec!["../x".to_string()];
    let judged = vec!["held".to_string(), "stranger".to_string()];
    let finished = finish_removal(planned.clone(), &refused, Some(&judged));
    assert_eq!(
        finished,
        vec![
            ("held".to_string(), Action::Release),
            ("../x".to_string(), Action::Refuse { refusal: Refusal::Containment { through: None } }),
            ("stranger".to_string(), Action::NotRecorded),
        ]
    );
    assert_eq!(finish_removal(planned.clone(), &vec![], None), planned);
}
