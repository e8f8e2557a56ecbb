use libproiectio::{join_listed, BlockFault, Origin, Refused};

#[test]
fn a_path_below_a_symlink_is_named_with_the_link() {
    let refused = Refused::Containment {
        paths: vec!["logs/x.txt".to_string()],
        below: vec![("logs/x.txt".to_string(), "logs".to_string())],
        origin: Origin::Caller,
    };
    assert_eq!(
        refused.message(),
        "refusing paths that violate containment: logs/x.txt (below the symlink logs)"
    );
}

#[test]
fn a_containment_refusal_names_where_a_path_came_from_when_no_link_is_involved() {
    let refused = Refused::Containment {
        paths: vec!["z/escape".to_string(), "pivot/x".to_string()],
        below: vec![("pivot/x".to_string(), "pivot".to_string())],
        origin: Origin::Files,
    };
    assert_eq!(
        refused.message(),
        "refusing paths that violate containment: z/escape (from individually named files), \
         pivot/x (below the symlink pivot)"
    );
}

#[test]
fn a_drift_refusal_names_the_flag_that_overrides_it() {
    let refused = Refused::Drift { paths: vec!["old".to_string()] };
    assert_eq!(
        refused.message(),
        "refusing to touch drifted paths (edited on disk): old; pass --force to touch them \
         anyway, where the projection can still tell what it would replace"
    );
}

#[test]
fn an_external_target_refusal_names_the_link_its_target_and_its_mapping() {
    let refused = Refused::ExternalTarget {
        links: vec![("rc".to_string(), "pivot/rc".to_string())],
        origin: Origin::Mapping { path: "/maps/deploy.toml".to_string() },
    };
    assert_eq!(
        refused.message(),
        "refusing symlinks with targets outside the destination: \
         rc -> pivot/rc (from mapping /maps/deploy.toml); pass --allow-external-targets to \
         write them"
    );
}

#[test]
fn the_other_refusals_list_their_paths_with_what_refused_them() {
    let foreign = Refused::Foreign { paths: vec!["dir".to_string()] };
    assert_eq!(
        foreign.message(),
        "refusing to touch foreign paths (not written by this projection): dir; no flag \
         overrides this: remove the paths by hand to let the projection write them — for a \
         block, the marker region rather than the container holding it"
    );
    let owners = Refused::OwnerConflict {
        conflicts: vec![("a".to_string(), vec!["other".to_string(), "third".to_string()])],
    };
    assert_eq!(owners.message(), "refusing paths other owners hold: a (held by other, third)");
    let invalid = Refused::InvalidTarget {
        links: vec![("l".to_string(), "a\"b".to_string())],
        origin: Origin::Archive { path: "/x.tar".to_string(), via: Some("/m.toml".to_string()) },
    };
    assert_eq!(
        invalid.message(),
        "refusing symlinks whose targets are not pathnames: l -> \"a\\\"b\" (from archive /x.tar \
         named by mapping /m.toml)"
    );
    let blocks = Refused::Block { blocks: vec![("rc".to_string(), BlockFault::MarkerEmpty)] };
    assert_eq!(blocks.message(), "refusing blocks that break the region rules: rc (MarkerEmpty)");
    let conflict = Refused::TreeConflict {
        paths: vec!["a".to_string(), "a/b".to_string()],
        origin: Origin::Tree { path: "/src".to_string() },
    };
    assert_eq!(
        conflict.message(),
        "refusing paths that conflict in the desired tree, one location claimed twice or one \
         beneath another: a, a/b (from tree /src)"
    );
    let held = Refused::DirectoryInTheWay { paths: vec!["d".to_string()] };
    assert_eq!(
        held.message(),
        "refusing paths where a directory holds what the projection may not remove: d"
    );
}

#[test]
fn listed_texts_are_joined_with_a_comma_and_a_space() {
    assert_eq!(join_listed(&vec![]), "");
    assert_eq!(join_listed(&vec!["a".to_string()]), "a");
    assert_eq!(join_listed(&vec!["a".to_string(), "b".to_string(), "c".to_string()]), "a, b, c");
}
