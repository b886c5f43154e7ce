//! The version-info resource: a fixed file info with the file and product
//! versions, string tables of named version strings, and the language and code-page pairs.
use vstd::prelude::*;
use editpe::{ResourceDirectory, ResourceError, VersionInfo};
use crate::resources::{dir_root, keeps_other_types, room_for_type_write, EntryKey, ResNode};
use crate::table::{lookup, put};
use crate::version::VersionU32;

verus! {

#[verifier::external_type_specification]
#[verifier::external_body]
pub struct ExVersionInfo(VersionInfo);

#[verifier::external_type_specification]
#[verifier::external_body]
pub struct ExResourceError(ResourceError);

/// Resource type id of version info.
pub const RT_VERSION: u32 = 16;

/// The fixed file info of a version-info resource, field by field.
pub struct FixedInfoView {
    pub signature: u32,
    pub struct_version: (u16, u16),
    pub file_version: (u32, u32),
    pub product_version: (u32, u32),
    pub file_flags_mask: u32,
    pub file_flags: u32,
    pub file_os: u32,
    pub file_type: u32,
    pub file_subtype: u32,
    pub file_date: u64,
}

/// A version-info resource: the fixed info, the string tables (each a key
/// and its strings, in order) and the language and code-page pairs.
pub struct VersionInfoView {
    pub info: FixedInfoView,
    pub strings: Seq<(Seq<char>, Seq<(Seq<char>, Seq<char>)>)>,
    pub vars: Seq<(u16, u16)>,
}

/// A version-info value, field by field.
pub uninterp spec fn version_info_view(vi: VersionInfo) -> VersionInfoView;

/// What reading the version info of the resource tree `root` gives:
/// `Err` where the stored resource is malformed, `Ok(None)` where there is none.
pub uninterp spec fn stored_version_info(root: Seq<(EntryKey, ResNode)>) -> Result<
    Option<VersionInfoView>,
    (),
>;

/// The resource tree after storing `v` as its version info; `None` where
/// the tree or `v` cannot be stored.
pub uninterp spec fn root_with_version_info(
    root: Seq<(EntryKey, ResNode)>,
    v: VersionInfoView,
) -> Option<Seq<(EntryKey, ResNode)>>;

/// The version info of a tree that has none: default fixed info (file and
/// product version words (1, 0), that is version 0.1.0.0), no string tables
/// and no language and code-page pairs.
pub open spec fn default_version_info_view() -> VersionInfoView {
    VersionInfoView {
        info: FixedInfoView {
            signature: 0xfeef04bd,
            struct_version: (0, 1),
            file_version: (1, 0),
            product_version: (1, 0),
            file_flags_mask: 0x3f,
            file_flags: 0,
            file_os: 0x00040004,
            file_type: 1,
            file_subtype: 0,
            file_date: 0,
        },
        strings: Seq::empty(),
        vars: Seq::empty(),
    }
}

/// `ResourceDirectory::get_version_info`: the stored version info. What it
/// parses carries the fixed-info signature (any other is refused), and each
/// key and value it reads ends before the first NUL, so it round-trips.
#[verifier::external_body]
pub(crate) fn read_version_info(d: &ResourceDirectory) -> (r: Result<Option<VersionInfo>, ResourceError>)
    ensures
        match r {
            Ok(Some(vi)) => stored_version_info(dir_root(*d)) == Ok::<Option<VersionInfoView>, ()>(
                Some(version_info_view(vi)),
            ),
            Ok(None) => stored_version_info(dir_root(*d)) == Ok::<Option<VersionInfoView>, ()>(
                None,
            ),
            Err(_) => stored_version_info(dir_root(*d)) is Err,
        },
        r matches Ok(Some(vi)) ==> version_info_round_trips(version_info_view(vi)),
{
    d.get_version_info()
}

/// No character is NUL.
pub open spec fn no_nul(s: Seq<char>) -> bool {
    forall|i: int| 0 <= i < s.len() ==> #[trigger] s[i] != '\0'
}

/// A version info that reads back as itself once stored: its fixed info
/// carries the fixed-info signature, and no table key, string key or string
/// value holds a NUL (a stored string ends at its first NUL).
pub open spec fn version_info_round_trips(v: VersionInfoView) -> bool {
    &&& v.info.signature == 0xfeef04bd
    &&& forall|i: int| #![trigger v.strings[i]] 0 <= i < v.strings.len() ==> {
        &&& no_nul(v.strings[i].0)
        &&& forall|j: int|
            #![trigger v.strings[i].1[j]]
            0 <= j < v.strings[i].1.len() ==> no_nul(v.strings[i].1[j].0) && no_nul(
                v.strings[i].1[j].1,
            )
    }
}

/// `ResourceDirectory::set_version_info`: stores `vi` as the version info.
/// On an error the tree is left as it was. On success only the entry of the
/// version type changes: it holds the built bytes under id 1, then the
/// default language, both moved to the front, which is where
/// `get_version_info` reads them; these bytes parse back to `vi` when
/// `version_info_round_trips` holds. The new entry that each of the three
/// tables may receive adds one to a 16-bit counter, which
/// `room_for_type_write` keeps from overflowing.
#[verifier::external_body]
pub(crate) fn write_version_info(d: &mut ResourceDirectory, vi: &VersionInfo) -> (r: Result<
    (),
    ResourceError,
>)
    requires
        room_for_type_write(dir_root(*old(d)), RT_VERSION),
    ensures
        match root_with_version_info(dir_root(*old(d)), version_info_view(*vi)) {
            Some(root) => r is Ok && dir_root(*final(d)) == root,
            None => r is Err && dir_root(*final(d)) == dir_root(*old(d)),
        },
        r is Ok ==> keeps_other_types(dir_root(*old(d)), dir_root(*final(d)), RT_VERSION),
        r is Ok && version_info_round_trips(version_info_view(*vi)) ==> (stored_version_info(
            dir_root(*final(d)),
        ) matches Ok(Some(w)) && w == version_info_view(*vi)),
{
    d.set_version_info(vi)
}

/// `VersionInfo::default`.
#[verifier::external_body]
pub(crate) fn default_version_info() -> (r: VersionInfo)
    ensures
        version_info_view(r) == default_version_info_view(),
{
    VersionInfo::default()
}

/// `Vec::len` on the string tables of `vi`.
#[verifier::external_body]
pub(crate) fn string_table_count(vi: &VersionInfo) -> (r: usize)
    ensures
        r == version_info_view(*vi).strings.len(),
{
    vi.strings.len()
}

/// `Vec::push` on the string tables of `vi`: appends a table with key `key`
/// and no strings.
#[verifier::external_body]
pub(crate) fn push_string_table(vi: &mut VersionInfo, key: String)
    ensures
        version_info_view(*final(vi)) == (VersionInfoView {
            strings: version_info_view(*old(vi)).strings.push(
                (key@, Seq::<(Seq<char>, Seq<char>)>::empty()),
            ),
            ..version_info_view(*old(vi))
        }),
{
    vi.strings.push(editpe::VersionStringTable { key, strings: Default::default() });
}

/// `IndexMap::insert` on the strings of the first string table: maps `key`
/// to `value`, in place of a present key, else after all strings.
#[verifier::external_body]
pub(crate) fn insert_first_table_string(vi: &mut VersionInfo, key: String, value: String)
    requires
        version_info_view(*old(vi)).strings.len() > 0,
    ensures
        version_info_view(*final(vi)) == (VersionInfoView {
            strings: version_info_view(*old(vi)).strings.update(
                0,
                (
                    version_info_view(*old(vi)).strings[0].0,
                    put(version_info_view(*old(vi)).strings[0].1, key@, value@),
                ),
            ),
            ..version_info_view(*old(vi))
        }),
{
    vi.strings[0].strings.insert(key, value);
}

/// `IndexMap::get` on the strings of string table `i`.
#[verifier::external_body]
pub(crate) fn table_string(vi: &VersionInfo, i: usize, key: &str) -> (r: Option<String>)
    requires
        i < version_info_view(*vi).strings.len(),
    ensures
        match lookup(version_info_view(*vi).strings[i as int].1, key@) {
            Some(s) => r matches Some(x) && x@ == s,
            None => r is None,
        },
{
    vi.strings[i].strings.get(key).cloned()
}

/// Assignment to the file version of the fixed info of `vi`.
#[verifier::external_body]
pub(crate) fn assign_file_version(vi: &mut VersionInfo, v: VersionU32)
    ensures
        version_info_view(*final(vi)) == (VersionInfoView {
            info: FixedInfoView {
                file_version: (v.major, v.minor),
                ..version_info_view(*old(vi)).info
            },
            ..version_info_view(*old(vi))
        }),
{
    vi.info.file_version = editpe::types::VersionU32 { major: v.major, minor: v.minor };
}

/// Assignment to the product version of the fixed info of `vi`.
#[verifier::external_body]
pub(crate) fn assign_product_version(vi: &mut VersionInfo, v: VersionU32)
    ensures
        version_info_view(*final(vi)) == (VersionInfoView {
            info: FixedInfoView {
                product_version: (v.major, v.minor),
                ..version_info_view(*old(vi)).info
            },
            ..version_info_view(*old(vi))
        }),
{
    vi.info.product_version = editpe::types::VersionU32 { major: v.major, minor: v.minor };
}

} // verus!
