//! The resource tree of a portable executable, as the `editpe` crate holds
//! it, seen through a model of plain values: a table is an ordered list of
//! named entries, each either a child table or a block of data.
use vstd::prelude::*;
use editpe::{ResourceData, ResourceDirectory, ResourceEntry, ResourceEntryName, ResourceTable};
use crate::string_table::{le_bytes, units_bytes};
use crate::table::{lookup, put};
use crate::utf16::encode_utf16;

verus! {

/// The name of a resource entry: a numeric id, or a name stored as its
/// UTF-16 unit count followed by its units, all little-endian.
pub enum EntryKey {
    Id(u32),
    Name(Seq<u8>),
}

/// A resource entry: a child table with its entries in order, or data
/// with its code page.
pub enum ResNode {
    Table(Seq<(EntryKey, ResNode)>),
    Data(Seq<u8>, u32),
}

/// Language id of US English, the default name of a resource entry.
pub const LANGUAGE_ID_EN_US: u32 = 1033;

/// Code page id of UTF-16LE, the default code page of resource data.
pub const CODE_PAGE_ID_EN_US: u32 = 1200;

#[verifier::external_type_specification]
#[verifier::external_body]
pub struct ExResourceDirectory(ResourceDirectory);

#[verifier::external_type_specification]
#[verifier::external_body]
pub struct ExResourceTable(ResourceTable);

#[verifier::external_type_specification]
#[verifier::external_body]
pub struct ExResourceEntry(ResourceEntry);

#[verifier::external_type_specification]
#[verifier::external_body]
pub struct ExResourceData(ResourceData);

#[verifier::external_type_specification]
#[verifier::external_body]
pub struct ExResourceEntryName(ResourceEntryName);

/// The entries of the root table of a resource directory.
pub uninterp spec fn dir_root(d: ResourceDirectory) -> Seq<(EntryKey, ResNode)>;

/// The entries of a resource table, in order.
pub uninterp spec fn table_entries(t: ResourceTable) -> Seq<(EntryKey, ResNode)>;

/// A resource entry as a node of the model.
pub uninterp spec fn entry_node(e: ResourceEntry) -> ResNode;

/// The bytes and the code page of resource data.
pub uninterp spec fn data_contents(d: ResourceData) -> (Seq<u8>, u32);

/// The key of a resource entry name.
pub uninterp spec fn name_key(n: ResourceEntryName) -> EntryKey;

/// The entries of a node that is a table; none for data or a missing node.
pub open spec fn table_of(n: Option<ResNode>) -> Seq<(EntryKey, ResNode)> {
    match n {
        Some(ResNode::Table(es)) => es,
        _ => Seq::empty(),
    }
}

/// The entry under `k`, if any, is not data.
pub open spec fn not_data(t: Seq<(EntryKey, ResNode)>, k: EntryKey) -> bool {
    !(lookup(t, k) matches Some(ResNode::Data(_, _)))
}

/// The table with an empty child table appended under `k`, unless an entry
/// with that key is already present.
pub open spec fn ensured(t: Seq<(EntryKey, ResNode)>, k: EntryKey) -> Seq<(EntryKey, ResNode)> {
    if lookup(t, k) is Some {
        t
    } else {
        t.push((k, ResNode::Table(Seq::empty())))
    }
}

/// A key that a table counts among its named entries: a name whose stored
/// form is not empty (its byte length, kept to 32 bits, is not zero); every
/// other key counts among the id entries.
pub open spec fn named_key(k: EntryKey) -> bool {
    match k {
        EntryKey::Name(b) => b.len() % 0x1_0000_0000 != 0,
        EntryKey::Id(_) => false,
    }
}

/// The number of entries of a table whose key is named (`named`) or an id.
pub open spec fn kind_count(es: Seq<(EntryKey, ResNode)>, named: bool) -> nat
    decreases es.len(),
{
    if es.len() == 0 {
        0
    } else {
        kind_count(es.drop_last(), named) + if named_key(es.last().0) == named {
            1nat
        } else {
            0nat
        }
    }
}

/// A table can take an entry under `k`: `k` is already present, or the
/// 16-bit header counter of `k`'s kind, which always equals the number of
/// entries of that kind modulo 65536, is below its largest value.
pub open spec fn has_room(es: Seq<(EntryKey, ResNode)>, k: EntryKey) -> bool {
    lookup(es, k) is Some || kind_count(es, named_key(k)) % 0x10000 != 0xFFFF
}

/// Storing a resource of type `kind` the way `editpe` stores a version info
/// or a manifest may add an entry to three tables, and each has room for
/// it: the root (for `kind`), the type table (for id 1) and the table of the
/// type table's first entry (for the default language).
pub open spec fn room_for_type_write(root: Seq<(EntryKey, ResNode)>, kind: u32) -> bool {
    let types = table_of(lookup(root, EntryKey::Id(kind)));
    let inner = if types.len() > 0 {
        table_of(Some(types[0].1))
    } else {
        Seq::empty()
    };
    &&& has_room(root, EntryKey::Id(kind))
    &&& has_room(types, EntryKey::Id(1))
    &&& has_room(inner, EntryKey::Id(LANGUAGE_ID_EN_US))
}

/// Every entry of the root other than type `kind` is as it was.
pub open spec fn keeps_other_types(
    before: Seq<(EntryKey, ResNode)>,
    after: Seq<(EntryKey, ResNode)>,
    kind: u32,
) -> bool {
    forall|k: EntryKey| k != EntryKey::Id(kind) ==> #[trigger] lookup(after, k) == lookup(before, k)
}

/// Whether a resource of type `kind` can be stored (see `room_for_type_write`).
pub(crate) fn room_for_type(d: &ResourceDirectory, kind: u32) -> (r: bool)
    ensures
        r == room_for_type_write(dir_root(*d), kind),
{
    let root = root_table(d);
    let kind_name = id_name(kind);
    if !room_for(root, &kind_name) {
        return false;
    }
    let types = match table_get(root, &kind_name) {
        Some(e) => match entry_as_table(e) {
            Some(t) => t,
            None => return true,
        },
        None => return true,
    };
    if !room_for(types, &id_name(1)) {
        return false;
    }
    let first = match table_first_name(types) {
        Some(n) => n,
        None => return true,
    };
    proof {
        crate::table::lemma_key_index_is(table_entries(*types), name_key(first), 0);
    }
    match table_get(types, &first) {
        Some(e) => match entry_as_table(e) {
            Some(inner) => room_for(inner, &default_name()),
            None => true,
        },
        None => true,
    }
}

/// `ResourceDirectory::root`: the root table.
#[verifier::external_body]
pub(crate) fn root_table(d: &ResourceDirectory) -> (r: &ResourceTable)
    ensures
        table_entries(*r) == dir_root(*d),
{
    d.root()
}

/// `ResourceDirectory::root_mut`, assigned through: replaces the root table.
#[verifier::external_body]
pub(crate) fn replace_root(d: &mut ResourceDirectory, t: ResourceTable)
    ensures
        dir_root(*final(d)) == table_entries(t),
{
    *d.root_mut() = t;
}

/// `ResourceTable::get`: the entry stored under the key of `k`.
#[verifier::external_body]
pub(crate) fn table_get<'a>(t: &'a ResourceTable, k: &ResourceEntryName) -> (r: Option<&'a ResourceEntry>)
    ensures
        match lookup(table_entries(*t), name_key(*k)) {
            Some(n) => r matches Some(e) && entry_node(*e) == n,
            None => r is None,
        },
{
    t.get(k)
}

/// `ResourceTable::insert`: stores `e` under `k`, in place of an entry with
/// the same key, else after all entries. A new key adds one to the table's
/// 16-bit counter of its kind; `editpe` keeps each counter equal to the
/// number of entries of its kind modulo 65536 (parsing sets them so, and
/// only `insert`, `insert_at` and `remove` change the keys, each moving its
/// counter in step), so `has_room` rules out the overflow of that addition.
#[verifier::external_body]
pub(crate) fn table_insert(t: &mut ResourceTable, k: ResourceEntryName, e: ResourceEntry)
    requires
        has_room(table_entries(*old(t)), name_key(k)),
    ensures
        table_entries(*final(t)) == put(table_entries(*old(t)), name_key(k), entry_node(e)),
{
    t.insert(k, e);
}

/// `ResourceTable::entries`, first element: the name of the first entry.
#[verifier::external_body]
pub(crate) fn table_first_name(t: &ResourceTable) -> (r: Option<ResourceEntryName>)
    ensures
        match r {
            Some(n) => table_entries(*t).len() > 0 && name_key(n) == table_entries(*t)[0].0,
            None => table_entries(*t).len() == 0,
        },
{
    t.entries().first().map(|n| (*n).clone())
}

/// `ResourceTable::entries`, cloned: the names of all entries, in order.
#[verifier::external_body]
pub(crate) fn table_names(t: &ResourceTable) -> (r: Vec<ResourceEntryName>)
    ensures
        r@.len() == table_entries(*t).len(),
        forall|i: int| 0 <= i < r@.len() ==> #[trigger] name_key(r@[i]) == table_entries(*t)[i].0,
{
    t.entries().into_iter().cloned().collect()
}

/// The stored bytes of a string name; `None` for an id.
#[verifier::external_body]
pub(crate) fn name_bytes(n: &ResourceEntryName) -> (r: Option<Vec<u8>>)
    ensures
        match name_key(*n) {
            EntryKey::Name(b) => r matches Some(v) && v@ == b,
            EntryKey::Id(_) => r is None,
        },
{
    match n {
        ResourceEntryName::Name(b) => Some(b.clone()),
        ResourceEntryName::ID(_) => None,
    }
}

/// Whether the table counts `n` among its named entries.
fn is_named_name(n: &ResourceEntryName) -> (r: bool)
    ensures
        r == named_key(name_key(*n)),
{
    match name_bytes(n) {
        Some(b) => (b.len() as u64) % 0x1_0000_0000 != 0,
        None => false,
    }
}

/// Whether `t` can take an entry under `n` (see `has_room`).
pub(crate) fn room_for(t: &ResourceTable, n: &ResourceEntryName) -> (r: bool)
    ensures
        r == has_room(table_entries(*t), name_key(*n)),
{
    if table_get(t, n).is_some() {
        return true;
    }
    let named = is_named_name(n);
    let names = table_names(t);
    let ghost es = table_entries(*t);
    let mut count: u64 = 0;
    let mut i: usize = 0;
    while i < names.len()
        invariant
            i <= names@.len(),
            names@.len() == es.len(),
            es == table_entries(*t),
            named == named_key(name_key(*n)),
            forall|j: int| 0 <= j < names@.len() ==> #[trigger] name_key(names@[j]) == es[j].0,
            count == kind_count(es.take(i as int), named),
            count <= i,
        decreases names.len() - i,
    {
        assert(es.take(i + 1).drop_last() == es.take(i as int));
        assert(name_key(names@[i as int]) == es[i as int].0);
        if is_named_name(&names[i]) == named {
            count = count + 1;
        }
        i = i + 1;
    }
    assert(es.take(names@.len() as int) == es);
    count % 0x10000 != 0xFFFF
}

/// `ResourceTable::default`: a table without entries.
#[verifier::external_body]
pub(crate) fn empty_table() -> (r: ResourceTable)
    ensures
        table_entries(r) == Seq::<(EntryKey, ResNode)>::empty(),
{
    ResourceTable::default()
}

/// `ResourceTable::clone`: a copy with the same entries.
#[verifier::external_body]
pub(crate) fn clone_table(t: &ResourceTable) -> (r: ResourceTable)
    ensures
        table_entries(r) == table_entries(*t),
{
    t.clone()
}

/// `ResourceEntry::as_table`: the child table, if the entry is one.
#[verifier::external_body]
pub(crate) fn entry_as_table(e: &ResourceEntry) -> (r: Option<&ResourceTable>)
    ensures
        match entry_node(*e) {
            ResNode::Table(es) => r matches Some(t) && table_entries(*t) == es,
            ResNode::Data(_, _) => r is None,
        },
{
    e.as_table()
}

/// `ResourceEntry::as_data`: the data, if the entry is data.
#[verifier::external_body]
pub(crate) fn entry_as_data(e: &ResourceEntry) -> (r: Option<&ResourceData>)
    ensures
        match entry_node(*e) {
            ResNode::Data(bytes, cp) => r matches Some(d) && data_contents(*d) == (bytes, cp),
            ResNode::Table(_) => r is None,
        },
{
    e.as_data()
}

/// `ResourceEntry::Table`: an entry holding the table `t`.
#[verifier::external_body]
pub(crate) fn table_entry(t: ResourceTable) -> (r: ResourceEntry)
    ensures
        entry_node(r) == ResNode::Table(table_entries(t)),
{
    ResourceEntry::Table(t)
}

/// `ResourceEntry::Data`: an entry holding the data `d`.
#[verifier::external_body]
pub(crate) fn data_entry(d: ResourceData) -> (r: ResourceEntry)
    ensures
        entry_node(r) == ResNode::Data(data_contents(d).0, data_contents(d).1),
{
    ResourceEntry::Data(d)
}

/// `ResourceData::default`: no bytes, in the UTF-16LE code page.
#[verifier::external_body]
pub(crate) fn empty_data() -> (r: ResourceData)
    ensures
        data_contents(r) == (Seq::<u8>::empty(), CODE_PAGE_ID_EN_US),
{
    ResourceData::default()
}

/// `ResourceData::clone`: a copy with the same bytes and code page.
#[verifier::external_body]
pub(crate) fn clone_data(d: &ResourceData) -> (r: ResourceData)
    ensures
        data_contents(r) == data_contents(*d),
{
    d.clone()
}

/// `ResourceData::data`: the bytes.
#[verifier::external_body]
pub(crate) fn data_bytes(d: &ResourceData) -> (r: &[u8])
    ensures
        r@ == data_contents(*d).0,
{
    d.data()
}

/// `ResourceData::set_data`: replaces the bytes, keeping the code page.
#[verifier::external_body]
pub(crate) fn set_data_bytes(d: &mut ResourceData, bytes: Vec<u8>)
    ensures
        data_contents(*final(d)) == (bytes@, data_contents(*old(d)).1),
{
    d.set_data(bytes);
}

/// `ResourceEntryName::ID`: the name of a numeric id.
#[verifier::external_body]
pub(crate) fn id_name(id: u32) -> (r: ResourceEntryName)
    ensures
        name_key(r) == EntryKey::Id(id),
{
    ResourceEntryName::ID(id)
}

/// `ResourceEntryName::clone`: the same name.
#[verifier::external_body]
pub(crate) fn clone_name(n: &ResourceEntryName) -> (r: ResourceEntryName)
    ensures
        name_key(r) == name_key(*n),
{
    n.clone()
}

/// `ResourceEntryName::default`: the id of US English.
#[verifier::external_body]
pub(crate) fn default_name() -> (r: ResourceEntryName)
    ensures
        name_key(r) == EntryKey::Id(LANGUAGE_ID_EN_US),
{
    ResourceEntryName::default()
}

/// `ResourceEntryName::from_string`: the name `s`, stored as its UTF-16
/// unit count and units, little-endian. It panics above 65535 units.
#[verifier::external_body]
pub(crate) fn string_name(s: &str) -> (r: ResourceEntryName)
    requires
        encode_utf16(s@).len() <= 0xFFFF,
    ensures
        name_key(r) == EntryKey::Name(
            le_bytes(encode_utf16(s@).len() as u16) + units_bytes(encode_utf16(s@)),
        ),
{
    ResourceEntryName::from_string(s)
}

/// The child table stored under `name`, after adding an empty one when no
/// entry has that name.
pub(crate) fn ensure_table(table: &mut ResourceTable, name: &ResourceEntryName) -> (r: ResourceTable)
    requires
        not_data(table_entries(*old(table)), name_key(*name)),
        has_room(table_entries(*old(table)), name_key(*name)),
    ensures
        lookup(table_entries(*final(table)), name_key(*name)) is Some,
        table_entries(*final(table)) == ensured(table_entries(*old(table)), name_key(*name)),
        table_entries(r) == table_of(lookup(table_entries(*final(table)), name_key(*name))),
{
    let ghost t0 = table_entries(*table);
    let present = match table_get(table, name) {
        Some(e) => match entry_as_table(e) {
            Some(t) => Some(clone_table(t)),
            None => None,
        },
        None => None,
    };
    match present {
        Some(t) => t,
        None => {
            let k = clone_name(name);
            table_insert(table, k, table_entry(empty_table()));
            proof {
                crate::table::lemma_put(t0, name_key(*name), ResNode::Table(Seq::empty()));
                crate::table::lemma_key_index(t0, name_key(*name));
            }
            empty_table()
        },
    }
}

} // verus!
