# editpe_cli

A command line editor for the resources of Windows executables (version
strings, file and product versions, string tables, the manifest's requested
execution level, raw data resources and the main icon), with its logic
verified by Verus.

- `src/` is the verified library. The resource directory is handled through
  the `editpe` crate; `src/resources.rs` and `src/version_info.rs` state what
  the library relies on from it, over a model in which a resource table is an
  ordered list of named entries, each a child table or data.
  - `string_table.rs`, `strings.rs`: string-table blocks and reading/writing
    string resources by id.
  - `version.rs`, `decimal.rs`: dotted version numbers and decimal text.
  - `manifest.rs`: setting the requested execution level in manifest text.
  - `edits.rs`: the edits applied to a resource directory.
  - `utf16.rs`, `text.rs`, `table.rs`: UTF-16, characters of strings, and
    ordered keyed tables.
  - `image.rs`: opening an image and storing its resource directory.
- `app/main.rs` parses the command line, reads and writes files, and reports
  errors.
- `tests/` runs the library on concrete values.
