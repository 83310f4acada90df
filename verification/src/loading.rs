//! Where a schema document comes from: a fresh cached copy, the built-in
//! configuration schema, the network or the file system, or, when that
//! fails, a copy whose cache entry has expired.

use vstd::prelude::*;

use crate::text::str_equals;

verus! {

/// The URL of Taplo's own configuration schema, which is built in.
pub open spec fn builtin_schema_url() -> Seq<char> {
    "taplo://taplo.toml"@
}

/// Whether `url` names the built-in configuration schema.
pub fn is_builtin_schema_url(url: &str) -> (r: bool)
    ensures
        r == (url@ == builtin_schema_url()),
{
    str_equals(url, "taplo://taplo.toml")
}

/// Where a schema is taken from before anything is fetched.
#[derive(Clone, Copy, Debug, PartialEq, Eq, Structural)]
pub enum LoadStep {
    /// The fresh copy the cache holds.
    Cached,
    /// The built-in configuration schema; it is then stored in the cache.
    Builtin,
    /// The document has to be fetched.
    Fetch,
}

/// A fresh cached copy comes first, then the built-in schema, and only then
/// is the document fetched.
pub open spec fn spec_load_step(url: Seq<char>, fresh_cached: bool) -> LoadStep {
    if fresh_cached {
        LoadStep::Cached
    } else if url == builtin_schema_url() {
        LoadStep::Builtin
    } else {
        LoadStep::Fetch
    }
}

/// Decides where the schema at `url` is taken from, given whether the cache
/// holds a fresh copy of it.
pub fn load_step(url: &str, fresh_cached: bool) -> (r: LoadStep)
    ensures
        r == spec_load_step(url@, fresh_cached),
{
    if fresh_cached {
        LoadStep::Cached
    } else if is_builtin_schema_url(url) {
        LoadStep::Builtin
    } else {
        LoadStep::Fetch
    }
}

/// What follows a fetch.
#[derive(Clone, Copy, Debug, PartialEq, Eq, Structural)]
pub enum AfterFetch {
    /// The fetched document is used and stored in the cache.
    Store,
    /// The fetch failed; the expired cached copy is used.
    UseExpired,
    /// The fetch failed and nothing is cached: loading fails with the
    /// fetch's error.
    Fail,
}

/// A fetched document is used; where the fetch failed, an expired cached
/// copy, if there is one.
pub open spec fn spec_after_fetch(fetched: bool, expired_cached: bool) -> AfterFetch {
    if fetched {
        AfterFetch::Store
    } else if expired_cached {
        AfterFetch::UseExpired
    } else {
        AfterFetch::Fail
    }
}

/// Decides what follows a fetch, given whether it succeeded and whether the
/// cache holds an expired copy.
pub fn after_fetch(fetched: bool, expired_cached: bool) -> (r: AfterFetch)
    ensures
        r == spec_after_fetch(fetched, expired_cached),
{
    if fetched {
        AfterFetch::Store
    } else if expired_cached {
        AfterFetch::UseExpired
    } else {
        AfterFetch::Fail
    }
}

} // verus!
