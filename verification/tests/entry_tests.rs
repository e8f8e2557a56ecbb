use libproiectio::{Entry, EntryKind, Placement};

#[test]
fn entry_kind_matches_variant() {
    let file = Entry::File {
        contents: b"x".to_vec(),
        executable: false,
    };
    let link = Entry::Symlink {
        target: "releases/1.2.3".to_owned(),
    };
    let block = Entry::Block {
        body: b"managed\n".to_vec(),
        marker: "# proiectio".to_owned(),
        placement: Placement::Append,
    };

    assert_eq!(file.kind(), EntryKind::File);
    assert_eq!(link.kind(), EntryKind::Symlink);
    assert_eq!(
        block.kind(),
        EntryKind::Block {
            marker: "# proiectio".to_owned(),
            placement: Placement::Append,
        }
    );
    assert!(block.kind().is_block());
    assert!(!file.kind().is_block());
}

#[test]
fn kinds_compare_by_marker_and_placement() {
    let a = EntryKind::Block { marker: "# a".to_owned(), placement: Placement::Append };
    let b = EntryKind::Block { marker: "# a".to_owned(), placement: Placement::Prepend };
    assert!(a.same_as(&a.duplicate()));
    assert!(!a.same_as(&b));
    assert!(!EntryKind::File.same_as(&EntryKind::Symlink));
}
