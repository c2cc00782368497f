use lattice::version::is_newer_version;

#[test]
fn test_version_comparison() {
    assert!(is_newer_version("0.1.0", "0.2.0"));
    assert!(is_newer_version("0.1.0", "1.0.0"));
    assert!(is_newer_version("1.2.3", "1.2.4"));
    assert!(!is_newer_version("1.0.0", "0.9.0"));
    assert!(!is_newer_version("1.0.0", "1.0.0"));
}

#[test]
fn version_missing_and_odd_components() {
    assert!(is_newer_version("1", "1.0.1"));
    assert!(!is_newer_version("1.0.1", "1"));
    assert!(!is_newer_version("1.2.3", "1.2.3.9"));
    assert!(is_newer_version("1.x.2", "1.3"));
    assert!(is_newer_version("", "+1"));
    assert!(!is_newer_version("4294967296", "0"));
}
