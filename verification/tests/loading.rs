use taplo_schema::loading::{after_fetch, is_builtin_schema_url, load_step, AfterFetch, LoadStep};

#[test]
fn a_fresh_cached_copy_comes_first() {
    assert_eq!(load_step("https://example.com/schema.json", true), LoadStep::Cached);
    assert_eq!(load_step("taplo://taplo.toml", true), LoadStep::Cached);
}

#[test]
fn the_configuration_schema_is_built_in() {
    assert!(is_builtin_schema_url("taplo://taplo.toml"));
    assert!(!is_builtin_schema_url("taplo://taplo.toml#/x"));
    assert!(!is_builtin_schema_url("https://example.com/taplo.toml"));
    assert_eq!(load_step("taplo://taplo.toml", false), LoadStep::Builtin);
}

#[test]
fn anything_else_is_fetched() {
    assert_eq!(load_step("https://example.com/schema.json", false), LoadStep::Fetch);
    assert_eq!(load_step("file:///schemas/a.json", false), LoadStep::Fetch);
}

#[test]
fn a_failed_fetch_falls_back_to_an_expired_copy() {
    assert_eq!(after_fetch(true, true), AfterFetch::Store);
    assert_eq!(after_fetch(true, false), AfterFetch::Store);
    assert_eq!(after_fetch(false, true), AfterFetch::UseExpired);
    assert_eq!(after_fetch(false, false), AfterFetch::Fail);
}
