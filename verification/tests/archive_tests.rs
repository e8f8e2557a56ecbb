use libproiectio::{
    format_for_file_name, is_executable, window_log_max, ArchiveFormat, Budget, Entry, Error,
    Expanded, Expansion, Limits, Origin, Placing, Refused, TarKind, MAX_MEMBERS, MAX_MEMBER_DEPTH,
    S_IFDIR, S_IFLNK, S_IFREG, tar_kind,
};

#[test]
fn the_window_cap_covers_the_byte_bound_rather_than_falling_under_it() {
    assert_eq!(window_log_max(Limits::DEFAULT_MAX_SOURCE_BYTES), 29);
    assert!((1u64 << window_log_max(Limits::DEFAULT_MAX_SOURCE_BYTES)) >= 500 << 20);
    assert_eq!(window_log_max(1 << 28), 28);
    assert_eq!(window_log_max(0), 10);
    assert_eq!(window_log_max(1), 10);
    assert_eq!(window_log_max(u64::MAX), 31);
}

#[test]
fn the_window_cap_between_the_clamps_is_the_covering_exponent() {
    assert_eq!(window_log_max(1 << 20), 20);
    assert_eq!(window_log_max((1 << 20) + 1), 21);
    assert_eq!(window_log_max(1025), 11);
}

#[test]
fn the_owner_execute_bit_makes_a_member_executable() {
    assert!(is_executable(0o755));
    assert!(is_executable(0o100));
    assert!(!is_executable(0o644));
    assert!(!is_executable(0o011));
}

/// Runs tar members through an expansion the way a tar read does:
/// `(name, kind, link target or body)`.
fn expand_tar(strip: u32, prefix: &str, members: &[(&str, TarKind, &str)]) -> Result<Expanded, Error> {
    let mut expansion = Expansion::new("/a/x.tar".to_string(), ArchiveFormat::Tar, strip, prefix.to_string());
    for (name, kind, payload) in members {
        match expansion.judge_tar_member(name.as_bytes(), *kind)? {
            Placing::Nothing => {}
            Placing::Link { member } => {
                let target = expansion.utf8_target(&member, payload.as_bytes())?;
                expansion.insert(member, Entry::Symlink { target })?;
            }
            Placing::File { member } => {
                expansion.insert(
                    member,
                    Entry::File { contents: payload.as_bytes().to_vec(), executable: false },
                )?;
            }
        }
    }
    expansion.finish(None)
}

fn keys(expanded: &Expanded) -> Vec<&str> {
    expanded.tree.iter().map(|(key, _)| key.as_str()).collect()
}

#[test]
fn a_name_outside_the_supported_extensions_names_no_decoder() {
    for name in ["vendor.rar", "vendor.gz", "vendor", "vendor.tar.bz2", ".tar"] {
        assert_eq!(ArchiveFormat::for_path(name), None, "{name}");
    }
}

#[test]
fn the_extension_match_ignores_ascii_case() {
    assert_eq!(ArchiveFormat::for_path("/a/SKELETON.TAR.GZ"), Some(ArchiveFormat::TarGz));
}

#[test]
fn the_extension_names_the_format_and_a_path_without_a_name_names_none() {
    assert_eq!(ArchiveFormat::for_path("x.tgz"), Some(ArchiveFormat::TarGz));
    assert_eq!(ArchiveFormat::for_path("x.tar.zst"), Some(ArchiveFormat::TarZst));
    assert_eq!(ArchiveFormat::for_path("x.Tar"), Some(ArchiveFormat::Tar));
    assert_eq!(ArchiveFormat::for_path("dir/x.zip"), Some(ArchiveFormat::Zip));
    assert_eq!(ArchiveFormat::for_path("a/.."), None);
    assert_eq!(format_for_file_name("release.TGZ"), Some(ArchiveFormat::TarGz));
}

#[test]
fn a_leading_dot_and_a_root_member_project_like_the_plain_names() {
    let expanded = expand_tar(
        0,
        "",
        &[
            ("./", TarKind::Directory, ""),
            (".", TarKind::Directory, ""),
            ("././", TarKind::Directory, ""),
            ("./x/", TarKind::Directory, ""),
            ("./x/a.txt", TarKind::Regular, "a\n"),
            ("././deep.txt", TarKind::Regular, "deep\n"),
            ("./current", TarKind::Symlink, "x/a.txt"),
        ],
    )
    .unwrap();
    assert_eq!(keys(&expanded), vec!["x/a.txt", "deep.txt", "current"]);
    assert!(expanded.dropped.is_empty());
}

#[test]
fn strip_drops_leading_components_and_records_what_it_erases() {
    let expanded = expand_tar(
        1,
        "vendor",
        &[
            ("top/", TarKind::Directory, ""),
            ("top/x", TarKind::Regular, "x\n"),
            ("README", TarKind::Regular, "r\n"),
            ("README", TarKind::Continuous, "again\n"),
        ],
    )
    .unwrap();
    assert_eq!(keys(&expanded), vec!["vendor/x"]);
    assert_eq!(expanded.dropped.len(), 1);
    assert_eq!(expanded.dropped[0].member, "README");
    assert_eq!(expanded.dropped[0].prefix, "vendor");
    assert_eq!(expanded.dropped[0].strip, 1);
}

#[test]
fn an_expansion_strip_empties_refuses_with_its_drop_count() {
    let error = expand_tar(2, "", &[("a/b", TarKind::Regular, "x"), ("c", TarKind::Regular, "y")]).unwrap_err();
    match error {
        Error::ArchiveFullyStripped { path, strip, dropped } => {
            assert_eq!(path, "/a/x.tar");
            assert_eq!(strip, 2);
            assert_eq!(dropped, 2);
        }
        other => panic!("expected FullyStripped, got {other:?}"),
    }
    let only_dirs = expand_tar(0, "", &[("empty/", TarKind::Directory, "")]).unwrap();
    assert!(only_dirs.tree.is_empty());
}

#[test]
fn escaping_member_names_are_refused_together_and_named_once() {
    let error = expand_tar(
        0,
        "",
        &[
            ("/etc/passwd", TarKind::Regular, ""),
            ("./../escape", TarKind::Regular, ""),
            ("stream:name", TarKind::Regular, ""),
            ("/etc/passwd", TarKind::Regular, ""),
            ("ok", TarKind::Regular, "kept"),
        ],
    )
    .unwrap_err();
    match error {
        Error::Refused(Refused::Containment { paths, origin, .. }) => {
            assert_eq!(paths, vec!["/etc/passwd", "./../escape", "stream:name"]);
            assert_eq!(origin, Origin::Archive { path: "/a/x.tar".to_string(), via: None });
        }
        other => panic!("expected a containment refusal, got {other:?}"),
    }
}

#[test]
fn two_members_landing_on_one_key_are_refused() {
    let error = expand_tar(1, "", &[("a/x", TarKind::Regular, "1"), ("b/x", TarKind::Regular, "2")]).unwrap_err();
    assert!(matches!(error, Error::ArchiveMemberDuplicate { member, .. } if member == "x"));
}

#[test]
fn a_member_kind_the_projection_never_writes_is_refused_by_name() {
    let error = expand_tar(0, "", &[("dev/null", TarKind::Other, "")]).unwrap_err();
    assert!(matches!(error, Error::ArchiveMemberKind { member, .. } if member == "dev/null"));
    let skipped = expand_tar(0, "", &[("pax", TarKind::GlobalHeader, ""), ("f", TarKind::Regular, "")]).unwrap();
    assert_eq!(keys(&skipped), vec!["f"]);
}

#[test]
fn a_member_nesting_past_the_depth_limit_fails() {
    let deep = vec!["d"; MAX_MEMBER_DEPTH + 2].join("/");
    let error = expand_tar(0, "", &[(deep.as_str(), TarKind::Regular, "")]).unwrap_err();
    assert!(matches!(error, Error::ArchiveMemberTooDeep { limit, .. } if limit == MAX_MEMBER_DEPTH));
    let fits = vec!["d"; MAX_MEMBER_DEPTH + 1].join("/");
    assert!(expand_tar(0, "", &[(fits.as_str(), TarKind::Regular, "")]).is_ok());
}

#[test]
fn names_and_targets_that_are_not_utf8_are_refused() {
    let mut expansion = Expansion::new("/a/x.tar".to_string(), ArchiveFormat::Tar, 0, String::new());
    let error = expansion.utf8_name(b"bad\xff").unwrap_err();
    assert!(matches!(error, Error::ArchiveMemberNameNotUtf8 { name, .. } if name == "bad\u{fffd}"));
    let error = expansion.utf8_target("link", b"\xfe").unwrap_err();
    assert!(matches!(error, Error::ArchiveMemberTargetNotUtf8 { member, .. } if member == "link"));
    assert_eq!(expansion.utf8_name("é".as_bytes()).unwrap(), "é");
    assert!(matches!(expansion.judge_tar_member(b"\xff", TarKind::Regular), Err(Error::ArchiveMemberNameNotUtf8 { .. })));
    assert_eq!(expansion.members, 1);
}

#[test]
fn the_member_count_is_capped() {
    let mut expansion = Expansion::new("/a/x.tar".to_string(), ArchiveFormat::Tar, 0, String::new());
    expansion.members = MAX_MEMBERS - 1;
    assert!(expansion.count_member().is_ok());
    assert!(matches!(expansion.count_member(), Err(Error::ArchiveTooManyMembers { limit, .. }) if limit == MAX_MEMBERS));
    assert!(expansion.check_zip_len(MAX_MEMBERS).is_ok());
    assert!(expansion.check_zip_len(MAX_MEMBERS + 1).is_err());
}

#[test]
fn a_zip_members_name_and_mode_must_agree_on_its_kind() {
    let expansion = Expansion::new("/a/x.zip".to_string(), ArchiveFormat::Zip, 0, String::new());
    assert!(expansion.check_zip_kind("d/", Some(S_IFDIR | 0o755), true).is_ok());
    assert!(expansion.check_zip_kind("f", Some(S_IFREG | 0o644), false).is_ok());
    assert!(expansion.check_zip_kind("l", Some(S_IFLNK | 0o777), false).is_ok());
    assert!(expansion.check_zip_kind("f", None, false).is_ok());
    assert!(expansion.check_zip_kind("f", Some(0o644), true).is_ok());
    assert!(matches!(expansion.check_zip_kind("f", Some(S_IFDIR), false), Err(Error::ArchiveMemberKindDisagrees { .. })));
    assert!(matches!(expansion.check_zip_kind("d/", Some(S_IFREG), true), Err(Error::ArchiveMemberKindDisagrees { .. })));
    assert!(matches!(expansion.check_zip_kind("p", Some(0o010_000), false), Err(Error::ArchiveMemberKind { member, .. }) if member == "p"));
}

#[test]
fn a_zip_larger_on_disk_than_the_budget_left_is_refused() {
    let expansion = Expansion::new("/a/x.zip".to_string(), ArchiveFormat::Zip, 0, String::new());
    let budget = Budget::new(Limits::default().with_max_source_bytes(100));
    assert!(expansion.check_zip_file(100, &budget).is_ok());
    match expansion.check_zip_file(101, &budget) {
        Err(Error::ArchiveFileTooLarge { size, remaining, limit, .. }) => {
            assert_eq!((size, remaining, limit), (101, 100, 100));
        }
        other => panic!("expected ArchiveFileTooLarge, got {other:?}"),
    }
}

#[test]
fn a_decode_failure_after_the_budget_ran_out_reports_the_budget() {
    let expansion = Expansion::new("/a/x.tar.zst".to_string(), ArchiveFormat::TarZst, 0, String::new());
    let mut budget = Budget::new(Limits::default().with_max_source_bytes(4));
    let error = expansion.decode(&budget, std::io::Error::other("corrupt"));
    assert!(matches!(error, Error::ArchiveDecode { format: ArchiveFormat::TarZst, .. }));
    assert!(!budget.spend(5));
    let error = expansion.decode(&budget, std::io::Error::other("cut off"));
    assert!(matches!(error, Error::ArchiveTooLarge { limit: 4, .. }));
}

#[test]
fn a_zip_member_is_judged_like_a_tar_member() {
    let mut expansion = Expansion::new("/a/x.zip".to_string(), ArchiveFormat::Zip, 0, "p".to_string());
    assert!(matches!(expansion.judge_zip_member(b"./d/", Some(S_IFDIR), true, false), Ok(Placing::Nothing)));
    assert!(matches!(expansion.judge_zip_member(b"d/l", Some(S_IFLNK), false, true), Ok(Placing::Link { member }) if member == "d/l"));
    assert!(matches!(expansion.judge_zip_member(b"d/f", None, false, false), Ok(Placing::File { member }) if member == "d/f"));
    assert!(matches!(expansion.judge_zip_member(b"d", Some(S_IFDIR), false, false), Err(Error::ArchiveMemberKindDisagrees { .. })));
    assert_eq!(expansion.members, 4);
    expansion.insert("d/f".to_string(), Entry::File { contents: vec![], executable: false }).unwrap();
    assert_eq!(expansion.tree[0].0, "p/d/f");
}

fn gzipped(bytes: &[u8]) -> Vec<u8> {
    let mut encoder = flate2::write::GzEncoder::new(Vec::new(), flate2::Compression::default());
    std::io::Write::write_all(&mut encoder, bytes).unwrap();
    encoder.finish().unwrap()
}

#[test]
fn a_tar_stream_is_spent_from_the_budget_and_a_stream_past_it_outgrows_the_load() {
    let expansion = Expansion::new("/a.tar".to_string(), ArchiveFormat::Tar, 0, String::new());
    let mut budget = Budget::new(Limits::default().with_max_source_bytes(10));
    assert_eq!(expansion.tar_stream(b"abc", &mut budget).unwrap(), b"abc".to_vec());
    assert_eq!(budget.remaining(), 7);
    assert!(matches!(
        expansion.tar_stream(b"too long a stream", &mut budget),
        Err(Error::ArchiveTooLarge { limit: 10, .. })
    ));
    assert_eq!(budget.remaining(), 7);
}

#[test]
fn a_compressed_tar_stream_is_what_its_decoder_yields() {
    let gz = Expansion::new("/a.tar.gz".to_string(), ArchiveFormat::TarGz, 0, String::new());
    let mut budget = Budget::new(Limits::default());
    let doubled = [gzipped(b"hello "), gzipped(b"world")].concat();
    assert_eq!(gz.tar_stream(&doubled, &mut budget).unwrap(), b"hello world".to_vec());
    assert!(matches!(
        gz.tar_stream(b"not gzip", &mut budget),
        Err(Error::ArchiveDecode { format: ArchiveFormat::TarGz, .. })
    ));
    let mut small = Budget::new(Limits::default().with_max_source_bytes(4));
    assert!(matches!(gz.tar_stream(&gzipped(b"hello"), &mut small), Err(Error::ArchiveTooLarge { .. })));

    let zst = Expansion::new("/a.tar.zst".to_string(), ArchiveFormat::TarZst, 0, String::new());
    let compressed = zstd::encode_all(&b"frame body"[..], 3).unwrap();
    assert_eq!(zst.tar_stream(&compressed, &mut budget).unwrap(), b"frame body".to_vec());
}

/// A tar stream holding an executable file, a symlink to it and a directory.
fn a_small_tar() -> Vec<u8> {
    let mut builder = tar::Builder::new(Vec::new());
    let mut dir = tar::Header::new_gnu();
    dir.set_entry_type(tar::EntryType::Directory);
    dir.set_mode(0o755);
    dir.set_size(0);
    builder.append_data(&mut dir, "d/", std::io::empty()).unwrap();
    let mut file = tar::Header::new_gnu();
    file.set_mode(0o755);
    file.set_size(3);
    builder.append_data(&mut file, "d/run.sh", &b"hi\n"[..]).unwrap();
    let mut link = tar::Header::new_gnu();
    link.set_entry_type(tar::EntryType::Symlink);
    link.set_size(0);
    builder.append_link(&mut link, "current", "d/run.sh").unwrap();
    builder.into_inner().unwrap()
}

#[test]
fn a_tar_streams_members_are_read_judged_and_placed_in_order() {
    let stream = a_small_tar();
    let mut expansion = Expansion::new("/a.tar".to_string(), ArchiveFormat::Tar, 0, "v".to_string());
    let budget = Budget::new(Limits::default());
    expansion.read_tar(&stream, &budget).unwrap();
    assert_eq!(expansion.members, 3);
    let expanded = expansion.finish(None).unwrap();
    assert_eq!(keys(&expanded), vec!["v/d/run.sh", "v/current"]);
    assert_eq!(expanded.tree[0].1, Entry::File { contents: b"hi\n".to_vec(), executable: true });
    assert_eq!(expanded.tree[1].1, Entry::Symlink { target: "d/run.sh".to_string() });
}

#[test]
fn a_tar_stream_the_container_cannot_read_fails_to_decode() {
    let mut expansion = Expansion::new("/a.tar".to_string(), ArchiveFormat::Tar, 0, String::new());
    let budget = Budget::new(Limits::default());
    assert!(matches!(
        expansion.read_tar(&[7u8; 512], &budget),
        Err(Error::ArchiveDecode { format: ArchiveFormat::Tar, .. })
    ));
}

#[test]
fn the_first_refusal_in_a_tar_stream_ends_the_reading() {
    let mut builder = tar::Builder::new(Vec::new());
    for body in [&b"one"[..], &b"two"[..], &b"three"[..]] {
        let mut header = tar::Header::new_gnu();
        header.set_mode(0o644);
        header.set_size(body.len() as u64);
        builder.append_data(&mut header, "same.txt", body).unwrap();
    }
    let stream = builder.into_inner().unwrap();
    let mut expansion = Expansion::new("/a.tar".to_string(), ArchiveFormat::Tar, 0, String::new());
    let budget = Budget::new(Limits::default());
    assert!(matches!(
        expansion.read_tar(&stream, &budget),
        Err(Error::ArchiveMemberDuplicate { .. })
    ));
    assert_eq!(expansion.members, 2);
    assert_eq!(expansion.tree.len(), 1);
}

#[test]
fn the_tar_type_byte_names_the_kind_the_tar_crate_reads() {
    assert_eq!(tar_kind(b'0'), TarKind::Regular);
    assert_eq!(tar_kind(0), TarKind::Regular);
    assert_eq!(tar_kind(b'7'), TarKind::Continuous);
    assert_eq!(tar_kind(b'2'), TarKind::Symlink);
    assert_eq!(tar_kind(b'5'), TarKind::Directory);
    assert_eq!(tar_kind(b'g'), TarKind::GlobalHeader);
    assert_eq!(tar_kind(b'1'), TarKind::Other);
    assert_eq!(tar_kind(b'x'), TarKind::Other);
}

/// A zip holding a file, with its mode, and a symlink to it.
fn a_small_zip() -> Vec<u8> {
    let mut writer = zip::ZipWriter::new(std::io::Cursor::new(Vec::new()));
    let stored = zip::write::SimpleFileOptions::default()
        .compression_method(zip::CompressionMethod::Stored);
    writer.start_file("bin/tool", stored.unix_permissions(0o755)).unwrap();
    std::io::Write::write_all(&mut writer, b"#!/bin/sh\n").unwrap();
    writer.add_symlink("tool", "bin/tool", stored).unwrap();
    writer.finish().unwrap().into_inner()
}

#[test]
fn a_zips_members_are_read_in_index_order_and_their_bodies_spent() {
    let mut expansion = Expansion::new("/a.zip".to_string(), ArchiveFormat::Zip, 0, String::new());
    let mut budget = Budget::new(Limits::default().with_max_source_bytes(100));
    expansion.read_zip(a_small_zip(), &mut budget).unwrap();
    assert_eq!(budget.remaining(), 100 - 10 - 8);
    let expanded = expansion.finish(None).unwrap();
    assert_eq!(keys(&expanded), vec!["bin/tool", "tool"]);
    assert_eq!(expanded.tree[0].1, Entry::File { contents: b"#!/bin/sh\n".to_vec(), executable: true });
    assert_eq!(expanded.tree[1].1, Entry::Symlink { target: "bin/tool".to_string() });
}

#[test]
fn a_zip_without_an_index_fails_to_decode_and_a_body_past_the_budget_outgrows_the_load() {
    let mut expansion = Expansion::new("/a.zip".to_string(), ArchiveFormat::Zip, 0, String::new());
    let mut budget = Budget::new(Limits::default());
    assert!(matches!(
        expansion.read_zip(b"not a zip at all".to_vec(), &mut budget),
        Err(Error::ArchiveDecode { format: ArchiveFormat::Zip, .. })
    ));

    let mut small = Expansion::new("/a.zip".to_string(), ArchiveFormat::Zip, 0, String::new());
    let mut tight = Budget::new(Limits::default().with_max_source_bytes(5));
    assert!(matches!(
        small.read_zip(a_small_zip(), &mut tight),
        Err(Error::ArchiveTooLarge { limit: 5, .. })
    ));
    assert_eq!(tight.remaining(), 5);
    assert!(tight.exhausted());
}
