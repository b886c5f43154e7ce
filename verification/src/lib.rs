//! Verified core of a command line editor for the resources of Windows
//! executables: string tables, version numbers, manifests and version strings.
pub mod decimal;
pub mod edits;
pub mod image;
pub mod manifest;
pub mod resources;
pub mod string_table;
pub mod strings;
pub mod table;
pub mod text;
pub mod utf16;
pub mod version;
pub mod version_info;
