use libproiectio::{
    sha256_hex, EntryKind, Error, Manifest, ManifestEntry, NodeFound, Origin, ParentWalk,
    Refused, WalkMove, WalkStep, MAX_WALK_DEPTH,
};

fn manifest_with_link(path: &str, target: &str) -> Manifest {
    let mut manifest = Manifest::new();
    manifest.insert(
        path.to_string(),
        ManifestEntry {
            kind: EntryKind::Symlink,
            hash: sha256_hex(target.as_bytes()),
            executable: false,
            owners: vec!["own".to_string()],
        },
    );
    manifest
}

fn open(walk: &ParentWalk) -> (String, String) {
    match walk.next().unwrap() {
        WalkStep::Open { component, here } => (component, here),
        WalkStep::Arrived => panic!("expected another component"),
    }
}

#[test]
fn a_walk_names_each_ancestor_then_arrives_at_the_parent() {
    let manifest = Manifest::new();
    let mut walk = ParentWalk::new("a/b/leaf", false);
    assert_eq!(walk.leaf, "leaf");
    assert_eq!(open(&walk), ("a".to_string(), "a".to_string()));
    assert_eq!(walk.found(NodeFound::Directory, &manifest).unwrap(), WalkMove::Descend);
    walk.descended();
    assert_eq!(open(&walk), ("b".to_string(), "a/b".to_string()));
    walk.descended();
    assert!(matches!(walk.next().unwrap(), WalkStep::Arrived));
    assert_eq!(walk.parent_path(), "a/b");
}

#[test]
fn missing_ancestry_is_created_by_a_placing_walk_and_gone_for_any_other() {
    let manifest = Manifest::new();
    let mut placing = ParentWalk::new("a/leaf", true);
    assert_eq!(placing.found(NodeFound::Missing, &manifest).unwrap(), WalkMove::Create);
    let mut checking = ParentWalk::new("a/leaf", false);
    assert_eq!(checking.found(NodeFound::Missing, &manifest).unwrap(), WalkMove::Gone);
    assert_eq!(checking.found(NodeFound::Other, &manifest).unwrap(), WalkMove::Gone);
}

#[test]
fn a_node_blocking_a_placing_walk_is_drift_where_recorded_and_foreign_where_not() {
    let mut manifest = Manifest::new();
    let mut walk = ParentWalk::new("a/leaf", true);
    assert!(matches!(
        walk.found(NodeFound::Other, &manifest),
        Err(Error::Refused(Refused::Foreign { paths })) if paths == vec!["a".to_string()]
    ));
    manifest.insert(
        "a".to_string(),
        ManifestEntry { kind: EntryKind::File, hash: String::new(), executable: false, owners: vec![] },
    );
    assert!(matches!(
        walk.found(NodeFound::Other, &manifest),
        Err(Error::Refused(Refused::Drift { paths })) if paths == vec!["a".to_string()]
    ));
}

#[test]
fn a_link_the_projection_does_not_own_is_never_walked_through() {
    let manifest = Manifest::new();
    let mut walk = ParentWalk::new("pivot/leaf", true);
    assert!(matches!(
        walk.found(NodeFound::Symlink(b"/etc".to_vec()), &manifest),
        Err(Error::Refused(Refused::Containment { paths, below, origin: Origin::Caller }))
            if paths == vec!["pivot/leaf".to_string()]
                && below == vec![("pivot/leaf".to_string(), "pivot".to_string())]
    ));
}

#[test]
fn an_owned_link_whose_target_changed_is_drift() {
    let manifest = manifest_with_link("pivot", "real");
    let mut walk = ParentWalk::new("pivot/leaf", true);
    assert!(matches!(
        walk.found(NodeFound::Symlink(b"elsewhere".to_vec()), &manifest),
        Err(Error::Refused(Refused::Drift { paths })) if paths == vec!["pivot".to_string()]
    ));
}

#[test]
fn an_owned_in_dest_link_restarts_the_walk_along_its_target() {
    let manifest = manifest_with_link("x/pivot", "../real/sub");
    let mut walk = ParentWalk::new("x/pivot/leaf", true);
    walk.descended();
    assert_eq!(walk.found(NodeFound::Symlink(b"../real/sub".to_vec()), &manifest).unwrap(), WalkMove::Restart);
    assert_eq!(walk.components, vec!["real".to_string(), "sub".to_string()]);
    assert!(walk.prefix.is_empty());
    assert_eq!(walk.visited, vec!["x/pivot".to_string()]);
    assert_eq!(open(&walk), ("real".to_string(), "real".to_string()));
}

#[test]
fn an_owned_link_leaving_the_destination_or_met_twice_is_refused() {
    let manifest = manifest_with_link("pivot", "../out");
    let mut walk = ParentWalk::new("pivot/leaf", true);
    assert!(matches!(
        walk.found(NodeFound::Symlink(b"../out".to_vec()), &manifest),
        Err(Error::Refused(Refused::Containment { .. }))
    ));
    let manifest = manifest_with_link("self", "self");
    let mut walk = ParentWalk::new("self/leaf", true);
    assert_eq!(walk.found(NodeFound::Symlink(b"self".to_vec()), &manifest).unwrap(), WalkMove::Restart);
    assert!(matches!(
        walk.found(NodeFound::Symlink(b"self".to_vec()), &manifest),
        Err(Error::Refused(Refused::Containment { .. }))
    ));
}

#[test]
fn a_placing_walk_stops_past_the_depth_the_destination_is_observed_to() {
    let deep = vec!["d"; MAX_WALK_DEPTH + 1].join("/") + "/leaf";
    let mut walk = ParentWalk::new(&deep, true);
    for _ in 0..MAX_WALK_DEPTH {
        walk.descended();
    }
    assert!(matches!(walk.next(), Err(Error::DestinationTooDeep { limit, .. }) if limit == MAX_WALK_DEPTH));
    let mut removing = ParentWalk::new(&deep, false);
    for _ in 0..MAX_WALK_DEPTH {
        removing.descended();
    }
    assert!(matches!(removing.next(), Ok(WalkStep::Open { .. })));
}
