use libproiectio::{
    absolutize_from,
    contained_join, contained_normalize, contained_target, is_pathname, join_path,
    parent_components, split_target, starts_with_drive, ChainStep, ChainWalk, Error, Hop, Origin,
    Refused,
};

#[test]
fn only_the_two_strings_that_are_not_pathnames_fail_the_pathname_check() {
    assert!(!is_pathname(""));
    assert!(!is_pathname("\0"));
    assert!(!is_pathname("shared/\0rc"));
    for target in ["shared/rc", "../outside", "/etc/passwd", "C:/escape", "."] {
        assert!(is_pathname(target), "{target:?}");
    }
}

#[test]
fn normalization_pops_parents_and_refuses_what_escapes() {
    let cases: &[(&str, Option<&str>)] = &[
        ("a/b", Some("a/b")),
        ("a/../b", Some("b")),
        ("a/b/../../c", Some("c")),
        ("../etc/passwd", None),
        ("a/..", None),
        ("/etc/passwd", None),
        ("a//b", None),
        ("./a", None),
        ("a/", None),
        ("", None),
        ("a\\b", None),
        ("a\0b", None),
        ("C:/escape", None),
        ("nul.txt", None),
        ("COM1", None),
        ("lpt\u{b9}", None),
        ("com10", Some("com10")),
        ("console", Some("console")),
        ("trailing.", None),
        ("trailing ", None),
        ("ünïcode/名前", Some("ünïcode/名前")),
    ];
    for (raw, want) in cases {
        assert_eq!(contained_normalize(raw).as_deref(), *want, "{raw:?}");
    }
}

#[test]
fn a_drive_is_a_letter_and_a_colon() {
    assert!(starts_with_drive("C:/x"));
    assert!(starts_with_drive("z:"));
    assert!(!starts_with_drive("1:"));
    assert!(!starts_with_drive("C"));
    assert!(!starts_with_drive("ab:"));
}

const DEST: &str = "/projects/dest";

#[test]
fn accepted_paths_join_lexically_normalized() {
    let cases: &[(&str, &str)] = &[
        ("x", "x"),
        ("a/b", "a/b"),
        ("a/b/c", "a/b/c"),
        ("a/../b", "b"),
        ("a/b/../c", "a/c"),
        ("a/b/../../c", "c"),
        ("a/b/c/../../d/../e", "a/e"),
        ("..a/b", "..a/b"),
        ("a.b/.hidden", "a.b/.hidden"),
        ("common/config", "common/config"),
        ("nulled", "nulled"),
        ("com0", "com0"),
        ("lpt10", "lpt10"),
        ("aux2.c", "aux2.c"),
        (".proiectio/records", ".proiectio/records"),
    ];
    for (rel, joined) in cases {
        let got = contained_join(DEST, rel)
            .unwrap_or_else(|error| panic!("{rel}: expected acceptance, got {error:?}"));
        let mut want = String::from(DEST);
        for component in joined.split('/') {
            want.push('/');
            want.push_str(component);
        }
        assert_eq!(got, want, "{rel}");
    }
}

#[test]
fn escaping_paths_are_refused_with_the_path_verbatim() {
    let cases: &[&str] = &[
        "/",
        "/etc/passwd",
        "/a/../b",
        "C:/evil",
        "C:\\evil",
        "c:",
        "C:evil",
        "\\\\server\\share",
        "a/C:evil",
        "a/../C:/evil",
        "x/c:/y",
        "a/C:",
        "victim:stream",
        "ab:c/d",
        ".. /escape",
        "a/.. ",
        "b..",
        "...",
        "a./b",
        "a /b",
        "name.",
        "name ",
        "NUL",
        "nul.txt",
        "a/CON/b",
        "com1",
        "LPT9.log",
        "prn",
        "AUX.c",
        "CONIN$",
        "conout$.txt",
        "COM¹",
        "lpt²",
        "com³.dat",
        "..\\..\\escape",
        "a\\b",
        "a/b\\c",
        "a\\../b",
        "a\u{0}b",
        "a/b\u{0}",
        "\u{0}",
        ".",
        "./x",
        "x/.",
        "a/./b",
        "",
        "a//b",
        "a/",
        "a/b/",
        "..",
        "../a",
        "../../a",
        "a/../..",
        "a/../../b",
        "a/b/../../../c",
        "a/b/c/../../../../x",
        "../a/b/c",
        "a/..",
        "a/b/../..",
    ];
    for rel in cases {
        let error = contained_join(DEST, rel).expect_err(&format!("{rel:?}: expected refusal"));
        assert!(error.is_refusal(), "{rel:?}");
        match error {
            Error::Refused(Refused::Containment { paths, origin, .. }) => {
                assert_eq!(paths, vec![rel.to_string()], "{rel:?}");
                assert_eq!(origin, Origin::Caller, "{rel:?}");
            }
            other => panic!("{rel:?}: expected Containment, got {other:?}"),
        }
    }
}

#[test]
fn in_dest_targets_resolve_from_the_links_parent() {
    let cases: &[(&str, &str, &str)] = &[
        ("", "shared/rc", "shared/rc"),
        ("nested", "../shared/rc", "shared/rc"),
        ("nested/deep", "../../shared/rc", "shared/rc"),
        ("nested", "sibling", "nested/sibling"),
        ("nested", "sub/../sibling", "nested/sibling"),
        ("", "./shared/rc", "shared/rc"),
        ("", "shared//rc", "shared/rc"),
        ("", "shared/", "shared"),
        ("nested", ".", "nested"),
        ("", "NUL", "NUL"),
        ("", "victim:stream", "victim:stream"),
        ("nested", "ab:c/d", "nested/ab:c/d"),
        ("", "not-there/yet", "not-there/yet"),
        ("", ".", ""),
        ("nested", "..", ""),
    ];
    for (parent, target, landing) in cases {
        assert_eq!(
            contained_target(parent, target),
            Some(landing.to_string()),
            "{parent:?} -> {target:?}"
        );
    }
}

#[test]
fn escaping_targets_grade_external() {
    let cases: &[(&str, &str)] = &[
        ("", "/etc/passwd"),
        ("", "/"),
        ("nested", "/etc/passwd"),
        ("", ".."),
        ("", "../outside"),
        ("nested", "../../outside"),
        ("nested/deep", "../../../outside"),
        ("", "a/../../outside"),
        ("", "C:/escape"),
        ("", "C:escape"),
        ("", "c:"),
        ("nested", "a:b"),
        ("", "..\\..\\escape"),
        ("", "a\\b"),
    ];
    for (parent, target) in cases {
        assert_eq!(contained_target(parent, target), None, "{parent:?} -> {target:?}");
    }
}

type Links<'a> = &'a [(&'a str, Option<&'a str>)];

/// Drives a chain walk over a destination described by its links alone.
fn resolve(parent: &str, target: &str, links: Links<'_>) -> Option<String> {
    let mut walk = ChainWalk::new(parent, target)?;
    loop {
        match walk.next() {
            ChainStep::Landed(landing) => return Some(landing),
            ChainStep::Outside => return None,
            ChainStep::Ask(here) => {
                let hop = match links.iter().find(|(path, _)| *path == here) {
                    Some((_, Some(target))) => Hop::Link(target.to_string()),
                    Some((_, None)) => Hop::Unresolvable,
                    None => Hop::Terminal,
                };
                if !walk.answer(hop) {
                    return None;
                }
            }
        }
    }
}

#[test]
fn a_chain_of_in_dest_links_resolves_to_where_the_pointer_lands() {
    let cases: &[(&str, &str, Links, &str)] = &[
        ("", "shared/rc", &[("shared", Some("real"))], "real/rc"),
        ("", "a/leaf", &[("a", Some("b")), ("b", Some("c"))], "c/leaf"),
        ("", "deep/pivot/leaf", &[("deep/pivot", Some("side"))], "deep/side/leaf"),
        ("nested", "../shared/rc", &[("shared", Some("real"))], "real/rc"),
        ("", "deep/pivot/..", &[("deep/pivot", Some("side"))], "deep"),
        ("", "shared/rc", &[("shared", Some("gone"))], "gone/rc"),
        ("", "not-there/yet", &[], "not-there/yet"),
        ("nested", "sub/../sibling", &[], "nested/sibling"),
    ];
    for (parent, target, links, landing) in cases {
        assert_eq!(
            resolve(parent, target, links),
            Some(landing.to_string()),
            "{parent:?} -> {target:?} through {links:?}"
        );
    }
}

#[test]
fn a_chain_reaching_outside_the_destination_grades_external() {
    let cases: &[(&str, &str, Links)] = &[
        ("", "pivot/passwd", &[("pivot", Some("/etc"))]),
        ("", "pivot/../passwd", &[("pivot", Some("/etc"))]),
        ("", "pivot/x", &[("pivot", Some("../outside"))]),
        ("nested", "pivot", &[("nested/pivot", Some("../../outside"))]),
        ("", "a/leaf", &[("a", Some("b")), ("b", Some("/etc"))]),
        ("", "pivot/x", &[("pivot", Some("C:/escape"))]),
        ("", "pivot/x", &[("pivot", Some("..\\..\\escape"))]),
        ("", "pivot/passwd", &[("pivot", None)]),
    ];
    for (parent, target, links) in cases {
        assert_eq!(resolve(parent, target, links), None, "{parent:?} -> {target:?} through {links:?}");
    }
}

#[test]
fn a_cycle_of_links_grades_external_rather_than_looping() {
    assert_eq!(resolve("", "self", &[("self", Some("self"))]), None);
    assert_eq!(resolve("", "l1", &[("l1", Some("l2")), ("l2", Some("l1"))]), None);
    assert_eq!(resolve("", "l1/leaf", &[("l1", Some("l2")), ("l2", Some("l1"))]), None);
    assert_eq!(resolve("", "s/x/../../s/y", &[("s", Some("real"))]), None);
}

#[test]
fn the_lexical_grading_is_the_chain_over_a_destination_holding_no_links() {
    for (parent, target) in [
        ("", "shared/rc"),
        ("nested", "../shared/rc"),
        ("", "/etc/passwd"),
        ("", "../outside"),
        ("", "C:/escape"),
    ] {
        assert_eq!(contained_target(parent, target), resolve(parent, target, &[]), "{parent:?} -> {target:?}");
    }
}

#[test]
fn a_path_joins_onto_its_destination_with_one_separator() {
    assert_eq!(join_path("/d", "a/b"), "/d/a/b");
    assert_eq!(join_path("/d/", "a"), "/d/a");
    assert_eq!(join_path("", "a"), "a");
    assert_eq!(join_path("/d", "/abs"), "/abs");
}

#[test]
fn split_target_keeps_empty_components_and_refuses_unresolvable_targets() {
    assert_eq!(split_target("a//b/"), Some(vec!["a".to_string(), String::new(), "b".to_string(), String::new()]));
    assert_eq!(split_target("/a"), None);
    assert_eq!(split_target("z:a"), None);
    assert_eq!(split_target("a\\b"), None);
    assert_eq!(parent_components("/a//b/"), vec!["a".to_string(), "b".to_string()]);
}

#[test]
fn a_path_made_absolute_collapses_dots_and_climbs_no_higher_than_the_root() {
    assert_eq!(absolutize_from("/srv/site", "../a/./b//c/.."), "/srv/a/b");
    assert_eq!(absolutize_from("/srv/site", "/x/../y"), "/y");
    assert_eq!(absolutize_from("/", "../.."), "/");
    assert_eq!(absolutize_from("/srv/site/", "deploy.toml"), "/srv/site/deploy.toml");
    assert_eq!(absolutize_from("", "/a//b/"), "/a/b");
    let once = absolutize_from("/srv", "a/./../b/c");
    assert_eq!(absolutize_from("/elsewhere", &once), once);
}
