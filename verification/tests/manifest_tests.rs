use libproiectio::{check_manifest_version, Error, Manifest, MANIFEST_VERSION};

#[test]
fn new_manifest_is_empty_at_the_current_version() {
    let manifest = Manifest::new();

    assert_eq!(manifest.version, MANIFEST_VERSION);
    assert!(manifest.entries.is_empty());
}

#[test]
fn a_manifest_of_another_version_is_refused_by_its_version() {
    assert!(check_manifest_version("state/m", MANIFEST_VERSION).is_ok());
    assert!(matches!(
        check_manifest_version("state/m", 9),
        Err(Error::ManifestVersion { path, found: 9, supported }) if path == "state/m" && supported == MANIFEST_VERSION
    ));
}
