# taplo_schema

The logic behind Taplo's TOML version handling, JSON Schema traversal and
validation, and the hover and completion content of its language server,
written in Verus with its behaviour stated in contracts and proved.

## Layout

- `src/` — the verified library.
  - `version` — which TOML version a document is formatted for: a directive
    comment, else the configured version, else detection.
  - `json`, `jsonview`, `jsontext` — JSON values, their mathematical view,
    and their compact JSON text.
  - `schema` — schema manipulation: sibling overlays, `allOf` merging,
    reference rebasing, draft detection, the subschemas that apply to a key
    or an index.
  - `pointer`, `urls`, `anchors` — resolving a reference: its URL, a JSON
    pointer or a plain-name fragment within its document.
  - `traversal` — the schemas that apply at a path of a document, and those
    of what may stand below it. A resource a loaded document embeds under
    an `$id` is found without loading anything; a traversal that needs a
    document it has not been given stops and names it, and the caller loads
    it and runs it again.
  - `validation` — validating a document with `jsonschema`, deciding
    conditions, and placing each violation in the document.
  - `facts`, `markdown`, `ext`, `hover`, `completion` — what a hover shows and
    what completion offers for a key or a value, and which completions the
    cursor's place in the document calls for.
  - `formats`, `patterns` — the `semver` formats and `pattern` matching.
  - `loading` — where a schema document is taken from: a fresh cached copy,
    the built-in configuration schema, a fetch, or an expired cached copy.
- `tests/` — tests of the library.
- `app/` — the loop that loads the documents the library asks for, and the
  conversion between `serde_json` values and the library's.
