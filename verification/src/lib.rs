//! Verified core logic of the Taplo TOML toolkit: TOML version resolution,
//! hover rendering and JSON-schema helpers.

pub mod syntax;
pub mod text;
pub mod version;
pub mod markdown;
pub mod hover;
pub mod json;
pub mod jsonview;
pub mod facts;
pub mod ext;
pub mod completion;
pub mod formats;
pub mod schema;
pub mod urls;
pub mod patterns;
pub mod pointer;
pub mod traversal;
pub mod anchors;
pub mod jsontext;
pub mod validation;
pub mod loading;
