use taplo_schema::formats::{semver, semver_req};

#[test]
fn semver_accepts_versions_only() {
    assert!(semver("1.0.0"));
    assert!(semver("1.2.3-alpha.1+build.5"));
    assert!(!semver("1.0"));
    assert!(!semver("01.0.0"));
    assert!(!semver("not a version"));
}

#[test]
fn semver_req_accepts_requirements() {
    assert!(semver_req("^1.2"));
    assert!(semver_req(">=1.0, <2.0"));
    assert!(semver_req("*"));
    assert!(!semver_req(">>1"));
}
