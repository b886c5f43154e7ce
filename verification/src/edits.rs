//! The edits that the command line tool applies to a resource directory:
//! version strings, file and product versions, the manifest's execution
//! level, and raw data resources.
use vstd::prelude::*;
use editpe::{ResourceDirectory, ResourceError};
use crate::decimal::{
    decimal_text, is_digit, lemma_decimal_text_value, parse_unsigned, parse_unsigned_chars,
};
use crate::manifest::{set_requested_execution_level, with_execution_level};
use crate::resources::{
    clone_table, data_entry, default_name, ensure_table, dir_root, empty_data, ensured, id_name, name_key,
    has_room, keeps_other_types, not_data, replace_root, room_for, room_for_type, room_for_type_write, root_table, set_data_bytes, string_name, table_entries, table_entry,
    table_get, table_insert, table_of, EntryKey, ResNode, CODE_PAGE_ID_EN_US, LANGUAGE_ID_EN_US,
};
use crate::string_table::{le_bytes, units_bytes};

use crate::table::{key_index, lemma_put, lookup, put};
use crate::text::chars_of;
use crate::utf16::{encode_utf16, str_to_utf16};
use crate::version::{
    format_version, parse_version, parse_version_spec, version_text, InvalidComponent,
};
use crate::version_info::{
    assign_file_version, assign_product_version, default_version_info, default_version_info_view,
    insert_first_table_string, push_string_table, read_version_info, root_with_version_info,
    no_nul, stored_version_info, string_table_count, table_string, version_info_round_trips,
    version_info_view,
    write_version_info, FixedInfoView, VersionInfoView, RT_VERSION,
};

verus! {

/// Why an edit failed.
#[derive(Debug)]
pub enum EditError {
    /// The stored version info could not be read.
    ReadVersionInfo(ResourceError),
    /// There is no version info.
    NoVersionInfo,
    /// No string table holds the version string asked for.
    VersionStringNotFound,
    /// The version info could not be stored.
    WriteVersionInfo(ResourceError),
    /// A version had an invalid component.
    InvalidVersion(InvalidComponent),
    /// The stored manifest could not be read.
    ReadManifest(ResourceError),
    /// The manifest could not be stored.
    WriteManifest(ResourceError),
}

/// Resource type id of manifests.
pub const RT_MANIFEST: u32 = 24;

/// Resource type id of raw data resources.
pub const RT_RCDATA: u32 = 10;

/// The four upper-case hexadecimal digits of `x`.
pub open spec fn hex4(x: u16) -> Seq<char> {
    seq![
        hex_digit(x as int / 0x1000),
        hex_digit(x as int / 0x100 % 16),
        hex_digit(x as int / 0x10 % 16),
        hex_digit(x as int % 16),
    ]
}

/// The upper-case hexadecimal digit for `d`, from 0 to 15.
pub open spec fn hex_digit(d: int) -> char {
    if d < 10 {
        ('0' as int + d) as char
    } else {
        ('A' as int + d - 10) as char
    }
}

/// The key of the string table created for version strings: the US English
/// language id and the UTF-16 code page, in hexadecimal.
pub open spec fn default_table_key() -> Seq<char> {
    hex4(LANGUAGE_ID_EN_US as u16) + hex4(CODE_PAGE_ID_EN_US as u16)
}

/// The first value of `key` in the string tables, searching them in order.
pub open spec fn find_version_string(
    tables: Seq<(Seq<char>, Seq<(Seq<char>, Seq<char>)>)>,
    key: Seq<char>,
) -> Option<Seq<char>>
    decreases tables.len(),
{
    if tables.len() == 0 {
        None
    } else {
        match lookup(tables[0].1, key) {
            Some(s) => Some(s),
            None => find_version_string(tables.drop_first(), key),
        }
    }
}

/// The version info loaded for an edit: the stored one, else the default.
pub open spec fn loaded(o: Option<VersionInfoView>) -> VersionInfoView {
    match o {
        Some(v) => v,
        None => default_version_info_view(),
    }
}

/// `v` with `key` mapped to `value` in its first string table, which is
/// created (with the default key) when there is none.
pub open spec fn with_version_string(v: VersionInfoView, key: Seq<char>, value: Seq<char>) -> VersionInfoView {
    let strings = if v.strings.len() == 0 {
        v.strings.push((default_table_key(), Seq::empty()))
    } else {
        v.strings
    };
    VersionInfoView { strings: strings.update(0, (strings[0].0, put(strings[0].1, key, value))), ..v }
}

/// `v` with its file version set to `(major, minor)` and its `FileVersion`
/// string set to the text of that version.
pub open spec fn with_file_version(v: VersionInfoView, major: u32, minor: u32) -> VersionInfoView {
    with_version_string(
        VersionInfoView {
            info: FixedInfoView { file_version: (major, minor), ..v.info },
            ..v
        },
        "FileVersion"@,
        version_text(major, minor),
    )
}

/// `v` with its product version set to `(major, minor)` and its
/// `ProductVersion` string set to the text of that version.
pub open spec fn with_product_version(v: VersionInfoView, major: u32, minor: u32) -> VersionInfoView {
    with_version_string(
        VersionInfoView {
            info: FixedInfoView { product_version: (major, minor), ..v.info },
            ..v
        },
        "ProductVersion"@,
        version_text(major, minor),
    )
}

/// What each version edit leaves as it was: an edit starts from the stored
/// version info itself; setting a version string changes neither the fixed
/// info nor the language and code-page pairs, keeps every table but the
/// first, and keeps every other string of the first table; setting the file
/// (product) version changes no fixed-info field but that version.
pub proof fn lemma_version_edit_frame(
    v: VersionInfoView,
    key: Seq<char>,
    value: Seq<char>,
    major: u32,
    minor: u32,
)
    ensures
        loaded(Some(v)) == v,
        with_version_string(v, key, value).info == v.info,
        with_version_string(v, key, value).vars == v.vars,
        with_version_string(v, key, value).strings.len() == if v.strings.len() == 0 {
            1
        } else {
            v.strings.len()
        },
        forall|i: int|
            0 < i < v.strings.len() ==> #[trigger] with_version_string(v, key, value).strings[i]
                == v.strings[i],
        forall|k: Seq<char>|
            k != key ==> #[trigger] lookup(with_version_string(v, key, value).strings[0].1, k) == (
            if v.strings.len() == 0 {
                None
            } else {
                lookup(v.strings[0].1, k)
            }),
        with_file_version(v, major, minor).info == (FixedInfoView {
            file_version: (major, minor),
            ..v.info
        }),
        with_file_version(v, major, minor).info.product_version == v.info.product_version,
        with_file_version(v, major, minor).vars == v.vars,
        with_product_version(v, major, minor).info == (FixedInfoView {
            product_version: (major, minor),
            ..v.info
        }),
        with_product_version(v, major, minor).info.file_version == v.info.file_version,
        with_product_version(v, major, minor).vars == v.vars,
{
    let strings = if v.strings.len() == 0 {
        v.strings.push((default_table_key(), Seq::empty()))
    } else {
        v.strings
    };
    lemma_put(strings[0].1, key, value);
    let w = with_version_string(v, key, value);
    assert forall|k: Seq<char>| k != key implies #[trigger] lookup(w.strings[0].1, k) == (if v.strings.len()
        == 0 {
        None
    } else {
        lookup(v.strings[0].1, k)
    }) by {
        if v.strings.len() == 0 {
            assert(strings[0].1 == Seq::<(Seq<char>, Seq<char>)>::empty());
        }
    }
}

/// The result of storing the version info `v`: `Ok` with the new tree, in
/// which only the version entry differs and which reads back `v` when `v`
/// round-trips; or the write error with the tree unchanged.
pub open spec fn stored_with(
    before: Seq<(EntryKey, ResNode)>,
    v: VersionInfoView,
    after: Seq<(EntryKey, ResNode)>,
    r: Result<(), EditError>,
) -> bool {
    match root_with_version_info(before, v) {
        Some(root) => {
            &&& r is Ok
            &&& after == root
            &&& keeps_other_types(before, after, RT_VERSION)
            &&& version_info_round_trips(v) ==> stored_version_info(after) == Ok::<
                Option<VersionInfoView>,
                (),
            >(Some(v))
        },
        None => r matches Err(EditError::WriteVersionInfo(_)) && after == before,
    }
}

/// Whether the version info can be stored without a table counter
/// overflowing (see `room_for_type_write`).
pub fn can_store_version_info(resources: &ResourceDirectory) -> (r: bool)
    ensures
        r == room_for_type_write(dir_root(*resources), RT_VERSION),
{
    room_for_type(resources, RT_VERSION)
}

/// Whether the manifest can be stored without a table counter overflowing
/// (see `room_for_type_write`).
pub fn can_store_manifest(resources: &ResourceDirectory) -> (r: bool)
    ensures
        r == room_for_type_write(dir_root(*resources), RT_MANIFEST),
{
    room_for_type(resources, RT_MANIFEST)
}

/// The key of the string table created for version strings holds no NUL.
proof fn lemma_default_key_no_nul()
    ensures
        no_nul(default_table_key()),
{
    let k = default_table_key();
    assert(hex_digit(0) as int == '0' as int);
    assert(hex_digit(4) as int == '4' as int);
    assert(hex_digit(9) as int == '9' as int);
    assert(hex_digit(11) as int == 'B' as int);
    assert(k =~= seq![hex_digit(0), hex_digit(4), hex_digit(0), hex_digit(9), hex_digit(0), hex_digit(4), hex_digit(11), hex_digit(0)]);
}

/// The text of a version holds no NUL.
proof fn lemma_version_text_no_nul(major: u32, minor: u32)
    ensures
        no_nul(version_text(major, minor)),
{
    let parts = seq![
        (major / 0x10000) as nat,
        (major % 0x10000) as nat,
        (minor / 0x10000) as nat,
        (minor % 0x10000) as nat,
    ];
    lemma_decimal_text_value(parts[0]);
    lemma_decimal_text_value(parts[1]);
    lemma_decimal_text_value(parts[2]);
    lemma_decimal_text_value(parts[3]);
    let t = version_text(major, minor);
    assert forall|i: int| 0 <= i < t.len() implies #[trigger] t[i] != '\0' by {
        let a = decimal_text(parts[0]);
        let b = decimal_text(parts[1]);
        let c = decimal_text(parts[2]);
        let d = decimal_text(parts[3]);
        if i < a.len() {
            assert(is_digit(a[i]));
        } else if i == a.len() {
        } else if i < a.len() + 1 + b.len() {
            assert(is_digit(b[i - a.len() - 1]));
        } else if i == a.len() + 1 + b.len() {
        } else if i < a.len() + 2 + b.len() + c.len() {
            assert(is_digit(c[i - a.len() - 2 - b.len()]));
        } else if i == a.len() + 2 + b.len() + c.len() {
        } else {
            assert(is_digit(d[i - a.len() - 3 - b.len() - c.len()]));
        }
    }
}

/// Setting a version string: the first table holding `key` maps it to
/// `value`, and a version info that round-trips still does when neither
/// `key` nor `value` holds a NUL.
pub proof fn lemma_version_string_read_back(w: VersionInfoView, key: Seq<char>, value: Seq<char>)
    ensures
        find_version_string(with_version_string(w, key, value).strings, key) == Some(value),
        version_info_round_trips(w) && no_nul(key) && no_nul(value) ==> version_info_round_trips(
            with_version_string(w, key, value),
        ),
{
    let strings = if w.strings.len() == 0 {
        w.strings.push((default_table_key(), Seq::empty()))
    } else {
        w.strings
    };
    let t0 = strings[0].1;
    lemma_put(t0, key, value);
    let v2 = with_version_string(w, key, value);
    assert(v2.strings[0].1 == put(t0, key, value));
    if version_info_round_trips(w) && no_nul(key) && no_nul(value) {
        lemma_default_key_no_nul();
        crate::table::lemma_key_index(t0, key);
        assert forall|i: int| #![trigger v2.strings[i]] 0 <= i < v2.strings.len() implies {
            &&& no_nul(v2.strings[i].0)
            &&& forall|j: int|
                #![trigger v2.strings[i].1[j]]
                0 <= j < v2.strings[i].1.len() ==> no_nul(v2.strings[i].1[j].0) && no_nul(
                    v2.strings[i].1[j].1,
                )
        } by {
            if i > 0 {
                assert(v2.strings[i] == w.strings[i]);
            } else {
                assert(strings[0].0 == v2.strings[0].0);
                if w.strings.len() > 0 {
                    assert(strings[0] == w.strings[0]);
                }
                assert forall|j: int|
                    #![trigger v2.strings[i].1[j]]
                    0 <= j < v2.strings[i].1.len() implies no_nul(v2.strings[i].1[j].0) && no_nul(
                        v2.strings[i].1[j].1,
                    ) by {
                    if j < t0.len() && v2.strings[0].1[j] == t0[j] {
                        assert(w.strings.len() > 0);
                        assert(t0[j] == w.strings[0].1[j]);
                    }
                }
            }
        }
    }
}

/// A version write that reads back: after a successful `set_version_string`
/// of `key` and `value` (neither holding a NUL) over a version info that
/// round-trips, the stored version info gives `value` for `key`.
pub proof fn lemma_set_version_string_read_back(
    before: Seq<(EntryKey, ResNode)>,
    after: Seq<(EntryKey, ResNode)>,
    key: Seq<char>,
    value: Seq<char>,
    r: Result<(), EditError>,
)
    requires
        stored_version_info(before) is Ok,
        version_info_round_trips(loaded(stored_version_info(before)->Ok_0)),
        stored_with(before, with_version_string(loaded(stored_version_info(before)->Ok_0), key, value), after, r),
        r is Ok,
        no_nul(key),
        no_nul(value),
    ensures
        stored_version_info(after) matches Ok(Some(v)) && find_version_string(v.strings, key) == Some(value),
        stored_version_info(after) == Ok::<Option<VersionInfoView>, ()>(
            Some(with_version_string(loaded(stored_version_info(before)->Ok_0), key, value)),
        ),
        keeps_other_types(before, after, RT_VERSION),
{
    lemma_version_string_read_back(loaded(stored_version_info(before)->Ok_0), key, value);
}

/// After a successful `set_file_version` (or `set_product_version`) over a
/// version info that round-trips, the stored version info holds the new
/// version and gives the version's text for `FileVersion` (or
/// `ProductVersion`).
pub proof fn lemma_set_version_read_back(
    before: Seq<(EntryKey, ResNode)>,
    after: Seq<(EntryKey, ResNode)>,
    major: u32,
    minor: u32,
    product: bool,
    r: Result<(), EditError>,
)
    requires
        stored_version_info(before) is Ok,
        version_info_round_trips(loaded(stored_version_info(before)->Ok_0)),
        stored_with(
            before,
            if product {
                with_product_version(loaded(stored_version_info(before)->Ok_0), major, minor)
            } else {
                with_file_version(loaded(stored_version_info(before)->Ok_0), major, minor)
            },
            after,
            r,
        ),
        r is Ok,
    ensures
        stored_version_info(after) matches Ok(Some(v)) && if product {
            &&& v.info.product_version == (major, minor)
            &&& find_version_string(v.strings, "ProductVersion"@) == Some(version_text(major, minor))
        } else {
            &&& v.info.file_version == (major, minor)
            &&& find_version_string(v.strings, "FileVersion"@) == Some(version_text(major, minor))
        },
        stored_version_info(after) == Ok::<Option<VersionInfoView>, ()>(
            Some(
                if product {
                    with_product_version(loaded(stored_version_info(before)->Ok_0), major, minor)
                } else {
                    with_file_version(loaded(stored_version_info(before)->Ok_0), major, minor)
                },
            ),
        ),
        keeps_other_types(before, after, RT_VERSION),
{
    let w = loaded(stored_version_info(before)->Ok_0);
    lemma_version_text_no_nul(major, minor);
    reveal_strlit("FileVersion");
    reveal_strlit("ProductVersion");
    if product {
        let w1 = VersionInfoView { info: FixedInfoView { product_version: (major, minor), ..w.info }, ..w };
        lemma_version_string_read_back(w1, "ProductVersion"@, version_text(major, minor));
    } else {
        let w1 = VersionInfoView { info: FixedInfoView { file_version: (major, minor), ..w.info }, ..w };
        lemma_version_string_read_back(w1, "FileVersion"@, version_text(major, minor));
    }
}

/// Writes the four upper-case hexadecimal digits of `x`.
fn push_hex4(out: &mut Vec<char>, x: u16)
    ensures
        final(out)@ == old(out)@ + hex4(x),
{
    let ghost start = out@;
    push_hex_digit(out, x / 0x1000);
    push_hex_digit(out, x / 0x100 % 16);
    push_hex_digit(out, x / 0x10 % 16);
    push_hex_digit(out, x % 16);
    assert(out@ == start + hex4(x));
}

/// Writes the upper-case hexadecimal digit for `d`.
fn push_hex_digit(out: &mut Vec<char>, d: u16)
    requires
        d < 16,
    ensures
        final(out)@ == old(out)@.push(hex_digit(d as int)),
{
    let b = d as u8;
    let c = if b < 10 {
        (48u8 + b) as char
    } else {
        (55u8 + b) as char
    };
    out.push(c);
}

/// The key of the string table created for version strings.
fn default_key() -> (r: String)
    ensures
        r@ == default_table_key(),
{
    let mut out: Vec<char> = Vec::new();
    push_hex4(&mut out, LANGUAGE_ID_EN_US as u16);
    push_hex4(&mut out, CODE_PAGE_ID_EN_US as u16);
    crate::text::string_from_chars(out.as_slice())
}

/// Reads the version string `key`: its value in the first string table
/// that holds it.
pub fn version_string(resources: &ResourceDirectory, key: &str) -> (r: Result<String, EditError>)
    ensures
        match stored_version_info(dir_root(*resources)) {
            Err(_) => r matches Err(EditError::ReadVersionInfo(_)),
            Ok(None) => r matches Err(EditError::NoVersionInfo),
            Ok(Some(v)) => match find_version_string(v.strings, key@) {
                Some(s) => r matches Ok(x) && x@ == s,
                None => r matches Err(EditError::VersionStringNotFound),
            },
        },
{
    let vi = match read_version_info(resources) {
        Ok(Some(vi)) => vi,
        Ok(None) => return Err(EditError::NoVersionInfo),
        Err(e) => return Err(EditError::ReadVersionInfo(e)),
    };
    let ghost tables = version_info_view(vi).strings;
    let n = string_table_count(&vi);
    let mut i: usize = 0;
    assert(tables.skip(0) == tables);
    while i < n
        invariant
            stored_version_info(dir_root(*resources)) == Ok::<Option<VersionInfoView>, ()>(
                Some(version_info_view(vi)),
            ),
            i <= n,
            n == tables.len(),
            tables == version_info_view(vi).strings,
            find_version_string(tables, key@) == find_version_string(tables.skip(i as int), key@),
        decreases n - i,
    {
        let ghost rest = tables.skip(i as int);
        assert(rest[0] == tables[i as int]);
        assert(rest.drop_first() == tables.skip(i + 1));
        if let Some(s) = table_string(&vi, i, key) {
            return Ok(s);
        }
        i = i + 1;
    }
    assert(tables.skip(i as int).len() == 0);
    Err(EditError::VersionStringNotFound)
}

/// The stored version info, or the default where there is none.
fn load_version_info(resources: &ResourceDirectory) -> (r: Result<editpe::VersionInfo, EditError>)
    ensures
        match stored_version_info(dir_root(*resources)) {
            Err(_) => r matches Err(EditError::ReadVersionInfo(_)),
            Ok(o) => r matches Ok(vi) && version_info_view(vi) == loaded(o),
        },
        stored_version_info(dir_root(*resources)) matches Ok(o) ==> version_info_round_trips(loaded(o)),
{
    assert(version_info_round_trips(default_version_info_view()));
    match read_version_info(resources) {
        Ok(Some(vi)) => Ok(vi),
        Ok(None) => Ok(default_version_info()),
        Err(e) => Err(EditError::ReadVersionInfo(e)),
    }
}

/// Maps `key` to `value` in the first string table of `vi`, creating a
/// table with the default key when there is none.
fn put_version_string(vi: &mut editpe::VersionInfo, key: &str, value: String)
    ensures
        version_info_view(*final(vi)) == with_version_string(version_info_view(*old(vi)), key@, value@),
{
    if string_table_count(vi) == 0 {
        push_string_table(vi, default_key());
    }
    insert_first_table_string(vi, key.to_owned(), value);
}

/// Sets the version string `key` to `value` in the first string table of
/// the version info (created where missing) and stores the version info.
pub fn set_version_string(resources: &mut ResourceDirectory, key: &str, value: &str) -> (r: Result<
    (),
    EditError,
>)
    requires
        room_for_type_write(dir_root(*old(resources)), RT_VERSION),
    ensures
        match stored_version_info(dir_root(*old(resources))) {
            Err(_) => r matches Err(EditError::ReadVersionInfo(_)) && dir_root(*final(resources))
                == dir_root(*old(resources)),
            Ok(o) => stored_with(
                dir_root(*old(resources)),
                with_version_string(loaded(o), key@, value@),
                dir_root(*final(resources)),
                r,
            ),
        },
        r is Ok && no_nul(key@) && no_nul(value@) ==> (stored_version_info(dir_root(*final(resources)))
            matches Ok(Some(v)) && find_version_string(v.strings, key@) == Some(value@)),
        r is Ok && no_nul(key@) && no_nul(value@) ==> (stored_version_info(dir_root(*old(resources)))
            matches Ok(Some(w)) ==> (stored_version_info(dir_root(*final(resources))) matches Ok(
            Some(v),
        ) && v.info == w.info && v.vars == w.vars)),
{
    let ghost before = dir_root(*resources);
    let mut vi = load_version_info(resources)?;
    put_version_string(&mut vi, key, value.to_owned());
    let r = match write_version_info(resources, &vi) {
        Ok(()) => Ok(()),
        Err(e) => Err(EditError::WriteVersionInfo(e)),
    };
    proof {
        if r is Ok && no_nul(key@) && no_nul(value@) {
            lemma_set_version_string_read_back(before, dir_root(*resources), key@, value@, r);
            lemma_version_edit_frame(loaded(stored_version_info(before)->Ok_0), key@, value@, 0, 0);
        }
    }
    r
}

/// Sets the file version to the version written in `text`, sets the
/// `FileVersion` string to that version's text, and stores the version info.
pub fn set_file_version(resources: &mut ResourceDirectory, text: &str) -> (r: Result<(), EditError>)
    requires
        room_for_type_write(dir_root(*old(resources)), RT_VERSION),
    ensures
        match stored_version_info(dir_root(*old(resources))) {
            Err(_) => r matches Err(EditError::ReadVersionInfo(_)) && dir_root(*final(resources))
                == dir_root(*old(resources)),
            Ok(o) => match parse_version_spec(text@) {
                Err(c) => r matches Err(EditError::InvalidVersion(e)) && e.component@ == c
                    && dir_root(*final(resources)) == dir_root(*old(resources)),
                Ok((major, minor)) => stored_with(
                    dir_root(*old(resources)),
                    with_file_version(loaded(o), major as u32, minor as u32),
                    dir_root(*final(resources)),
                    r,
                ),
            },
        },
        r is Ok ==> (parse_version_spec(text@) matches Ok((major, minor)) && (stored_version_info(
            dir_root(*final(resources)),
        ) matches Ok(Some(v)) && v.info.file_version == (major as u32, minor as u32)
            && find_version_string(v.strings, "FileVersion"@) == Some(
            version_text(major as u32, minor as u32),
        ))),
        r is Ok ==> (stored_version_info(dir_root(*old(resources))) matches Ok(Some(w)) ==> (
        stored_version_info(dir_root(*final(resources))) matches Ok(Some(v)) && v.info == (
        FixedInfoView { file_version: v.info.file_version, ..w.info }) && v.info.product_version
            == w.info.product_version && v.vars == w.vars)),
{
    let ghost before = dir_root(*resources);
    let mut vi = load_version_info(resources)?;
    let v = match parse_version(text) {
        Ok(v) => v,
        Err(e) => return Err(EditError::InvalidVersion(e)),
    };
    assign_file_version(&mut vi, v);
    put_version_string(&mut vi, "FileVersion", format_version(v));
    let r = match write_version_info(resources, &vi) {
        Ok(()) => Ok(()),
        Err(e) => Err(EditError::WriteVersionInfo(e)),
    };
    proof {
        if r is Ok {
            let (major, minor) = parse_version_spec(text@)->Ok_0;
            lemma_set_version_read_back(
                before,
                dir_root(*resources),
                major as u32,
                minor as u32,
                false,
                r,
            );
            lemma_version_edit_frame(
                loaded(stored_version_info(before)->Ok_0),
                Seq::empty(),
                Seq::empty(),
                major as u32,
                minor as u32,
            );
        }
    }
    r
}

/// Sets the product version to the version written in `text`, sets the
/// `ProductVersion` string to that version's text, and stores the version
/// info.
pub fn set_product_version(resources: &mut ResourceDirectory, text: &str) -> (r: Result<(), EditError>)
    requires
        room_for_type_write(dir_root(*old(resources)), RT_VERSION),
    ensures
        match stored_version_info(dir_root(*old(resources))) {
            Err(_) => r matches Err(EditError::ReadVersionInfo(_)) && dir_root(*final(resources))
                == dir_root(*old(resources)),
            Ok(o) => match parse_version_spec(text@) {
                Err(c) => r matches Err(EditError::InvalidVersion(e)) && e.component@ == c
                    && dir_root(*final(resources)) == dir_root(*old(resources)),
                Ok((major, minor)) => stored_with(
                    dir_root(*old(resources)),
                    with_product_version(loaded(o), major as u32, minor as u32),
                    dir_root(*final(resources)),
                    r,
                ),
            },
        },
        r is Ok ==> (parse_version_spec(text@) matches Ok((major, minor)) && (stored_version_info(
            dir_root(*final(resources)),
        ) matches Ok(Some(v)) && v.info.product_version == (major as u32, minor as u32)
            && find_version_string(v.strings, "ProductVersion"@) == Some(
            version_text(major as u32, minor as u32),
        ))),
        r is Ok ==> (stored_version_info(dir_root(*old(resources))) matches Ok(Some(w)) ==> (
        stored_version_info(dir_root(*final(resources))) matches Ok(Some(v)) && v.info == (
        FixedInfoView { product_version: v.info.product_version, ..w.info }) && v.info.file_version
            == w.info.file_version && v.vars == w.vars)),
{
    let ghost before = dir_root(*resources);
    let mut vi = load_version_info(resources)?;
    let v = match parse_version(text) {
        Ok(v) => v,
        Err(e) => return Err(EditError::InvalidVersion(e)),
    };
    assign_product_version(&mut vi, v);
    put_version_string(&mut vi, "ProductVersion", format_version(v));
    let r = match write_version_info(resources, &vi) {
        Ok(()) => Ok(()),
        Err(e) => Err(EditError::WriteVersionInfo(e)),
    };
    proof {
        if r is Ok {
            let (major, minor) = parse_version_spec(text@)->Ok_0;
            lemma_set_version_read_back(
                before,
                dir_root(*resources),
                major as u32,
                minor as u32,
                true,
                r,
            );
            lemma_version_edit_frame(
                loaded(stored_version_info(before)->Ok_0),
                Seq::empty(),
                Seq::empty(),
                major as u32,
                minor as u32,
            );
        }
    }
    r
}

/// What reading the manifest of the resource tree `root` gives: `Err`
/// where the stored resource is malformed, `Ok(None)` where there is none.
pub uninterp spec fn stored_manifest(root: Seq<(EntryKey, ResNode)>) -> Result<Option<Seq<char>>, ()>;

/// The UTF-8 bytes of the text `m`.
pub uninterp spec fn utf8_bytes(m: Seq<char>) -> Seq<u8>;

/// The table with `k` mapped to `v` and that entry moved to the front, the
/// others keeping their order.
pub open spec fn put_first(
    t: Seq<(EntryKey, ResNode)>,
    k: EntryKey,
    v: ResNode,
) -> Seq<(EntryKey, ResNode)> {
    match key_index(t, k) {
        Some(i) => seq![(k, v)] + t.remove(i),
        None => seq![(k, v)] + t,
    }
}

/// The resource tree after storing the manifest bytes `bytes`: the manifest
/// type table (created where missing) gets, at its front, id 1 holding the
/// table of its first entry (or a new one) with the bytes at its front under
/// the default language. `None` where the manifest type entry or the first
/// entry of its table is data.
pub open spec fn root_with_manifest(root: Seq<(EntryKey, ResNode)>, bytes: Seq<u8>) -> Option<
    Seq<(EntryKey, ResNode)>,
> {
    let tk = EntryKey::Id(RT_MANIFEST);
    match lookup(root, tk) {
        Some(ResNode::Data(_, _)) => None,
        found => {
            let types = table_of(found);
            let inner = if types.len() == 0 {
                Some(Seq::<(EntryKey, ResNode)>::empty())
            } else {
                match types[0].1 {
                    ResNode::Table(t) => Some(t),
                    ResNode::Data(_, _) => None,
                }
            };
            match inner {
                None => None,
                Some(t) => {
                    let inner2 = put_first(
                        t,
                        EntryKey::Id(LANGUAGE_ID_EN_US),
                        ResNode::Data(bytes, CODE_PAGE_ID_EN_US),
                    );
                    Some(put(root, tk, ResNode::Table(put_first(types, EntryKey::Id(1), ResNode::Table(inner2)))))
                },
            }
        },
    }
}

/// `ResourceDirectory::get_manifest`: the stored manifest text.
#[verifier::external_body]
fn read_manifest(d: &ResourceDirectory) -> (r: Result<Option<String>, ResourceError>)
    ensures
        match r {
            Ok(Some(m)) => stored_manifest(dir_root(*d)) == Ok::<Option<Seq<char>>, ()>(Some(m@)),
            Ok(None) => stored_manifest(dir_root(*d)) == Ok::<Option<Seq<char>>, ()>(None),
            Err(_) => stored_manifest(dir_root(*d)) is Err,
        },
{
    d.get_manifest()
}

/// `ResourceDirectory::set_manifest`: stores `m` as the manifest. On an
/// error (the manifest type entry, or the first entry of its table, is
/// data) the tree is left as it was. On success the tree is
/// `root_with_manifest` of the UTF-8 bytes of `m` (`insert_at(.., 0)` puts
/// or moves an entry to the front), which is where `get_manifest` reads
/// them back as `m`. The new entry that each of the three tables may
/// receive adds one to a 16-bit counter, which `room_for_type_write` keeps
/// from overflowing.
#[verifier::external_body]
fn write_manifest(d: &mut ResourceDirectory, m: &str) -> (r: Result<(), ResourceError>)
    requires
        room_for_type_write(dir_root(*old(d)), RT_MANIFEST),
    ensures
        match root_with_manifest(dir_root(*old(d)), utf8_bytes(m@)) {
            Some(root) => r is Ok && dir_root(*final(d)) == root,
            None => r is Err && dir_root(*final(d)) == dir_root(*old(d)),
        },
        r is Ok ==> (stored_manifest(dir_root(*final(d))) matches Ok(Some(x)) && x == m@),
{
    d.set_manifest(m)
}

/// The result of storing the manifest `m`: `Ok` with the new tree, in which
/// only the manifest entry differs and which reads back `m`; or the write
/// error with the tree unchanged.
pub open spec fn manifest_stored_with(
    before: Seq<(EntryKey, ResNode)>,
    m: Seq<char>,
    after: Seq<(EntryKey, ResNode)>,
    r: Result<(), EditError>,
) -> bool {
    match root_with_manifest(before, utf8_bytes(m)) {
        Some(root) => {
            &&& r is Ok
            &&& after == root
            &&& keeps_other_types(before, after, RT_MANIFEST)
            &&& stored_manifest(after) == Ok::<Option<Seq<char>>, ()>(Some(m))
        },
        None => r matches Err(EditError::WriteManifest(_)) && after == before,
    }
}

/// Stores `manifest` as the manifest.
pub fn set_manifest(resources: &mut ResourceDirectory, manifest: &str) -> (r: Result<(), EditError>)
    requires
        room_for_type_write(dir_root(*old(resources)), RT_MANIFEST),
    ensures
        manifest_stored_with(dir_root(*old(resources)), manifest@, dir_root(*final(resources)), r),
{
    let ghost before = dir_root(*resources);
    let r = match write_manifest(resources, manifest) {
        Ok(()) => Ok(()),
        Err(e) => Err(EditError::WriteManifest(e)),
    };
    proof {
        if root_with_manifest(before, utf8_bytes(manifest@)) is Some {
            lemma_manifest_keeps_other_types(before, utf8_bytes(manifest@));
        }
    }
    r
}

/// Storing a manifest changes no root entry other than the manifest type.
pub proof fn lemma_manifest_keeps_other_types(root: Seq<(EntryKey, ResNode)>, bytes: Seq<u8>)
    requires
        root_with_manifest(root, bytes) is Some,
    ensures
        keeps_other_types(root, root_with_manifest(root, bytes)->0, RT_MANIFEST),
{
    let tk = EntryKey::Id(RT_MANIFEST);
    let after = root_with_manifest(root, bytes)->0;
    assert(exists|v: ResNode| after == put(root, tk, v));
    let v = choose|v: ResNode| after == put(root, tk, v);
    lemma_put(root, tk, v);
}

/// Sets the requested execution level in the stored manifest (an empty one
/// where there is none) and stores the result.
pub fn set_execution_level(resources: &mut ResourceDirectory, level: &str) -> (r: Result<
    (),
    EditError,
>)
    requires
        room_for_type_write(dir_root(*old(resources)), RT_MANIFEST),
    ensures
        match stored_manifest(dir_root(*old(resources))) {
            Err(_) => r matches Err(EditError::ReadManifest(_)) && dir_root(*final(resources))
                == dir_root(*old(resources)),
            Ok(o) => manifest_stored_with(
                dir_root(*old(resources)),
                with_execution_level(
                    match o {
                        Some(m) => m,
                        None => Seq::<char>::empty(),
                    },
                    level@,
                ),
                dir_root(*final(resources)),
                r,
            ),
        },
{
    let existing = match read_manifest(resources) {
        Ok(Some(m)) => m,
        Ok(None) => String::new(),
        Err(e) => return Err(EditError::ReadManifest(e)),
    };
    let updated = set_requested_execution_level(existing.as_str(), level);
    set_manifest(resources, updated.as_str())
}

/// The number written in `text`, as `str::parse::<u32>` reads it.
pub fn parse_resource_id(text: &str) -> (r: Option<u32>)
    ensures
        match r {
            Some(n) => parse_unsigned(text@, 0xFFFF_FFFF) == Some(n as int),
            None => parse_unsigned(text@, 0xFFFF_FFFF) is None,
        },
{
    let cs = chars_of(text);
    parse_unsigned_chars(cs.as_slice(), 0xFFFF_FFFF)
}

/// The name of a raw data resource given as `text`: its number when `text`
/// is one, else `text` as a string name.
pub open spec fn rcdata_key(text: Seq<char>) -> EntryKey {
    match parse_unsigned(text, 0xFFFF_FFFF) {
        Some(n) => EntryKey::Id(n as u32),
        None => EntryKey::Name(le_bytes(encode_utf16(text).len() as u16) + units_bytes(encode_utf16(text))),
    }
}

/// `text` makes a resource name: it is a number, or a string of at most
/// 65535 UTF-16 units.
pub open spec fn name_fits(text: Seq<char>) -> bool {
    parse_unsigned(text, 0xFFFF_FFFF) is Some || encode_utf16(text).len() <= 0xFFFF
}

/// A raw data resource can be stored under `key`: neither the raw data
/// table nor the entry under `key` in it is data, and the root, the raw
/// data table and the table under `key` each have room for the entry that
/// may be added to them.
pub open spec fn can_write_rcdata(root: Seq<(EntryKey, ResNode)>, key: EntryKey) -> bool {
    let rk = EntryKey::Id(RT_RCDATA);
    &&& not_data(root, rk)
    &&& not_data(table_of(lookup(root, rk)), key)
    &&& has_room(root, rk)
    &&& has_room(table_of(lookup(root, rk)), key)
    &&& has_room(table_of(lookup(table_of(lookup(root, rk)), key)), EntryKey::Id(LANGUAGE_ID_EN_US))
}

/// The tree after storing `data` as raw data resource `key`: the raw data
/// table and the table under `key` are created where missing, and `data`
/// (in the UTF-16 code page) is stored under the default language.
pub open spec fn root_with_rcdata(root: Seq<(EntryKey, ResNode)>, key: EntryKey, data: Seq<u8>) -> Seq<
    (EntryKey, ResNode),
> {
    let rk = EntryKey::Id(RT_RCDATA);
    let r1 = ensured(root, rk);
    let t1 = ensured(table_of(lookup(r1, rk)), key);
    let inner = put(
        table_of(lookup(t1, key)),
        EntryKey::Id(LANGUAGE_ID_EN_US),
        ResNode::Data(data, CODE_PAGE_ID_EN_US),
    );
    put(r1, rk, ResNode::Table(put(t1, key, ResNode::Table(inner))))
}

/// The resource name for `text`.
fn rcdata_name(text: &str) -> (r: editpe::ResourceEntryName)
    requires
        name_fits(text@),
    ensures
        name_key(r) == rcdata_key(text@),
{
    match parse_resource_id(text) {
        Some(n) => id_name(n),
        None => string_name(text),
    }
}

/// Whether `text` makes a resource name: a number, or a string of at most
/// 65535 UTF-16 units.
pub fn rcdata_name_fits(text: &str) -> (r: bool)
    ensures
        r == name_fits(text@),
{
    parse_resource_id(text).is_some() || str_to_utf16(text).len() <= 0xFFFF
}

/// Whether `set_rcdata` can store data under the name `text`.
pub fn can_set_rcdata(resources: &ResourceDirectory, text: &str) -> (r: bool)
    ensures
        r == (name_fits(text@) && can_write_rcdata(dir_root(*resources), rcdata_key(text@))),
{
    if parse_resource_id(text).is_none() {
        let units = str_to_utf16(text);
        if units.len() > 0xFFFF {
            return false;
        }
    }
    let name = rcdata_name(text);
    let root = root_table(resources);
    let kind_name = id_name(RT_RCDATA);
    if !room_for(root, &kind_name) {
        return false;
    }
    match table_get(root, &kind_name) {
        Some(e) => match crate::resources::entry_as_table(e) {
            Some(t) => {
                if !room_for(t, &name) {
                    return false;
                }
                match table_get(t, &name) {
                    Some(inner) => match crate::resources::entry_as_table(inner) {
                        Some(it) => room_for(it, &default_name()),
                        None => false,
                    },
                    None => true,
                }
            },
            None => false,
        },
        None => true,
    }
}

/// Stores `data` as raw data resource `text` (a number, or else a name),
/// under the default language.
pub fn set_rcdata(resources: &mut ResourceDirectory, text: &str, data: Vec<u8>)
    requires
        name_fits(text@),
        can_write_rcdata(dir_root(*old(resources)), rcdata_key(text@)),
    ensures
        dir_root(*final(resources)) == root_with_rcdata(dir_root(*old(resources)), rcdata_key(text@), data@),
{
    let ghost root0 = dir_root(*resources);
    let name = rcdata_name(text);
    let kind_name = id_name(RT_RCDATA);
    let mut root = clone_table(root_table(resources));
    let mut kind_table = ensure_table(&mut root, &kind_name);
    proof {
        if lookup(root0, EntryKey::Id(RT_RCDATA)) is None {
            lemma_put(root0, EntryKey::Id(RT_RCDATA), ResNode::Table(Seq::empty()));
            assert(crate::table::key_index(table_entries(kind_table), name_key(name)) is None);
        }
    }
    let ghost k0 = table_entries(kind_table);
    let mut inner = ensure_table(&mut kind_table, &name);
    proof {
        if lookup(k0, name_key(name)) is None {
            lemma_put(k0, name_key(name), ResNode::Table(Seq::empty()));
        }
        assert(table_entries(inner) == Seq::<(EntryKey, ResNode)>::empty() || table_entries(inner)
            == table_of(lookup(table_of(lookup(root0, EntryKey::Id(RT_RCDATA))), name_key(name))));
    }
    let mut entry = empty_data();
    set_data_bytes(&mut entry, data);
    table_insert(&mut inner, default_name(), data_entry(entry));
    table_insert(&mut kind_table, crate::resources::clone_name(&name), table_entry(inner));
    table_insert(&mut root, kind_name, table_entry(kind_table));
    replace_root(resources, root);
}

/// A stored raw data resource is found under its names: the raw data table,
/// its name, then the default language.
pub proof fn lemma_rcdata_stored(root: Seq<(EntryKey, ResNode)>, key: EntryKey, data: Seq<u8>)
    ensures
        lookup(
            table_of(
                lookup(
                    table_of(lookup(root_with_rcdata(root, key, data), EntryKey::Id(RT_RCDATA))),
                    key,
                ),
            ),
            EntryKey::Id(LANGUAGE_ID_EN_US),
        ) == Some(ResNode::Data(data, CODE_PAGE_ID_EN_US)),
        forall|k: EntryKey|
            k != EntryKey::Id(RT_RCDATA) ==> #[trigger] lookup(root_with_rcdata(root, key, data), k)
                == lookup(root, k),
{
    let rk = EntryKey::Id(RT_RCDATA);
    let r1 = ensured(root, rk);
    lemma_put(root, rk, ResNode::Table(Seq::empty()));
    let t0 = table_of(lookup(r1, rk));
    let t1 = ensured(t0, key);
    lemma_put(t0, key, ResNode::Table(Seq::empty()));
    let inner0 = table_of(lookup(t1, key));
    let inner = put(inner0, EntryKey::Id(LANGUAGE_ID_EN_US), ResNode::Data(data, CODE_PAGE_ID_EN_US));
    lemma_put(inner0, EntryKey::Id(LANGUAGE_ID_EN_US), ResNode::Data(data, CODE_PAGE_ID_EN_US));
    lemma_put(t1, key, ResNode::Table(inner));
    lemma_put(r1, rk, ResNode::Table(put(t1, key, ResNode::Table(inner))));
    assert forall|k: EntryKey| k != rk implies #[trigger] lookup(root_with_rcdata(root, key, data), k)
        == lookup(root, k) by {
        if lookup(root, rk) is None {
            assert(lookup(r1, k) == lookup(root, k));
        }
    }
}

} // verus!
