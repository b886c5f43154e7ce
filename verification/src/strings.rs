//! String-table resources: each string id lives in block `id / 16 + 1` of
//! the string table, at index `id % 16` of that block; a block is stored as
//! the data of the first entry (a language) of its table.
use vstd::prelude::*;
use editpe::ResourceDirectory;
use crate::resources::{
    clone_data, clone_table, data_bytes, data_entry, default_name, dir_root, empty_data,
    ensure_table, ensured, entry_as_data, entry_as_table, id_name, name_key, not_data,
    has_room, replace_root, room_for, root_table, set_data_bytes, table_entries, table_entry, table_first_name,
    table_get, table_insert, table_of, EntryKey, ResNode, CODE_PAGE_ID_EN_US, LANGUAGE_ID_EN_US,
};
use crate::string_table::{
    block_entry, block_entry_spec, block_strings, block_strings_spec, block_with, encode_block,
    encode_slots, lemma_block_strings_entry, lemma_block_strings_len, lemma_block_update,
    lemma_block_with_twice, lemma_encode_slots_len, nonempty, total_units, views,
};
use crate::table::{key_index, lemma_key_index_is, lemma_put, lemma_put_put, lookup, put};
use crate::utf16::{decode_utf16, encode_utf16, lemma_encode_basic_plane, lemma_utf16_round_trip, str_to_utf16, string_from_utf16};

verus! {

/// Resource type id of string tables.
pub const RT_STRING: u32 = 6;

/// The block that holds string `id`.
pub open spec fn block_of(id: u32) -> u32 {
    (id / 16 + 1) as u32
}

/// The index of string `id` within its block.
pub open spec fn index_in_block(id: u32) -> int {
    (id % 16) as int
}

/// The stored bytes of block `block` of the string table: the data of the
/// first entry of the block's table.
pub open spec fn stored_block(root: Seq<(EntryKey, ResNode)>, block: u32) -> Option<Seq<u8>> {
    match lookup(table_of(lookup(root, EntryKey::Id(RT_STRING))), EntryKey::Id(block)) {
        Some(ResNode::Table(b)) => if b.len() > 0 {
            match b[0].1 {
                ResNode::Data(bytes, _) => Some(bytes),
                ResNode::Table(_) => None,
            }
        } else {
            None
        },
        _ => None,
    }
}

/// String `id` of the string table rooted at `root`: `None` where the table,
/// the block or the entry is missing, the entry is empty, or its units are
/// not valid UTF-16.
pub open spec fn string_resource(root: Seq<(EntryKey, ResNode)>, id: u32) -> Option<Seq<char>> {
    match lookup(root, EntryKey::Id(RT_STRING)) {
        Some(ResNode::Table(_)) => match stored_block(root, block_of(id)) {
            Some(bytes) => match block_entry_spec(bytes, index_in_block(id)) {
                Some(units) => decode_utf16(units),
                None => None,
            },
            None => None,
        },
        _ => None,
    }
}

/// Neither the string table nor the table of the block of string `id` is
/// stored as data.
pub open spec fn string_slots_writable(root: Seq<(EntryKey, ResNode)>, id: u32) -> bool {
    &&& not_data(root, EntryKey::Id(RT_STRING))
    &&& not_data(table_of(lookup(root, EntryKey::Id(RT_STRING))), EntryKey::Id(block_of(id)))
}

/// String `id` can be written: neither the string table nor the table of
/// its block is stored as data, and the root and the string table each have
/// room for the entry that may be added to them.
pub open spec fn can_write_string(root: Seq<(EntryKey, ResNode)>, id: u32) -> bool {
    &&& string_slots_writable(root, id)
    &&& has_room(root, EntryKey::Id(RT_STRING))
    &&& has_room(table_of(lookup(root, EntryKey::Id(RT_STRING))), EntryKey::Id(block_of(id)))
}

/// The root after writing the code units `value` as string `id`: the string
/// table and the block's table are created where missing, an empty block
/// gets a first entry of empty data under the default name, and the data of
/// the block's first entry (if it is data) is rewritten with `value` at the
/// string's index. A block whose first entry is a table is left as it is.
pub open spec fn root_with_string(root: Seq<(EntryKey, ResNode)>, id: u32, value: Seq<u16>) -> Seq<
    (EntryKey, ResNode),
> {
    let type_key = EntryKey::Id(RT_STRING);
    let block_key = EntryKey::Id(block_of(id));
    let r1 = ensured(root, type_key);
    let t1 = ensured(table_of(lookup(r1, type_key)), block_key);
    let b = table_of(lookup(t1, block_key));
    let b1 = if b.len() == 0 {
        seq![(EntryKey::Id(LANGUAGE_ID_EN_US), ResNode::Data(Seq::empty(), CODE_PAGE_ID_EN_US))]
    } else {
        b
    };
    let b2 = match b1[0].1 {
        ResNode::Data(bytes, cp) => b1.update(
            0,
            (b1[0].0, ResNode::Data(block_with(bytes, index_in_block(id), value), cp)),
        ),
        ResNode::Table(_) => b1,
    };
    put(r1, type_key, ResNode::Table(put(t1, block_key, ResNode::Table(b2))))
}

/// The block of string `id` already holds a first entry that is a table,
/// where a string cannot be written.
pub open spec fn block_starts_with_table(root: Seq<(EntryKey, ResNode)>, id: u32) -> bool {
    let b = table_of(
        lookup(table_of(lookup(root, EntryKey::Id(RT_STRING))), EntryKey::Id(block_of(id))),
    );
    b.len() > 0 && b[0].1 is Table
}

/// The stored bytes of block `block`, or none where it has no data yet.
pub open spec fn block_bytes_or_empty(root: Seq<(EntryKey, ResNode)>, block: u32) -> Seq<u8> {
    match stored_block(root, block) {
        Some(b) => b,
        None => Seq::empty(),
    }
}

/// Adding an entry where missing changes the lookup of no other key, and
/// leaves an entry under `k`.
proof fn lemma_ensured(t: Seq<(EntryKey, ResNode)>, k: EntryKey)
    ensures
        lookup(ensured(t, k), k) == (if lookup(t, k) is Some {
            lookup(t, k)
        } else {
            Some(ResNode::Table(Seq::empty()))
        }),
        forall|k2: EntryKey| k2 != k ==> #[trigger] lookup(ensured(t, k), k2) == lookup(t, k2),
{
    lemma_put(t, k, ResNode::Table(Seq::empty()));
}

/// The block table of string `id` after the write.
proof fn lemma_written_block(root: Seq<(EntryKey, ResNode)>, id: u32, value: Seq<u16>)
    requires
        string_slots_writable(root, id),
    ensures
        ({
            let new_root = root_with_string(root, id, value);
            let tk = EntryKey::Id(RT_STRING);
            let bk = EntryKey::Id(block_of(id));
            let old_types = table_of(lookup(root, tk));
            let b = table_of(lookup(old_types, bk));
            &&& lookup(new_root, tk) is Some
            &&& lookup(new_root, tk)->0 is Table
            &&& forall|ob: u32|
                ob != block_of(id) ==> #[trigger] lookup(table_of(lookup(new_root, tk)), EntryKey::Id(ob))
                    == lookup(old_types, EntryKey::Id(ob))
            &&& lookup(table_of(lookup(new_root, tk)), bk) is Some
            &&& lookup(table_of(lookup(new_root, tk)), bk)->0 is Table
            &&& lookup(old_types, bk) matches Some(n) ==> n is Table
            &&& lookup(root, tk) matches Some(n) ==> n is Table
            &&& !block_starts_with_table(root, id) ==> !block_starts_with_table(new_root, id)
            &&& !block_starts_with_table(root, id) ==> stored_block(new_root, block_of(id)) == Some(
                block_with(block_bytes_or_empty(root, block_of(id)), index_in_block(id), value),
            )
        }),
{
    let tk = EntryKey::Id(RT_STRING);
    let bk = EntryKey::Id(block_of(id));
    let r1 = ensured(root, tk);
    lemma_ensured(root, tk);
    let types = table_of(lookup(r1, tk));
    assert(types == table_of(lookup(root, tk)));
    let t1 = ensured(types, bk);
    lemma_ensured(types, bk);
    let b = table_of(lookup(t1, bk));
    let b1 = if b.len() == 0 {
        seq![(EntryKey::Id(LANGUAGE_ID_EN_US), ResNode::Data(Seq::empty(), CODE_PAGE_ID_EN_US))]
    } else {
        b
    };
    let b2 = match b1[0].1 {
        ResNode::Data(bytes, cp) => b1.update(
            0,
            (b1[0].0, ResNode::Data(block_with(bytes, index_in_block(id), value), cp)),
        ),
        ResNode::Table(_) => b1,
    };
    let t2 = put(t1, bk, ResNode::Table(b2));
    lemma_put(t1, bk, ResNode::Table(b2));
    lemma_put(r1, tk, ResNode::Table(t2));
    assert(lookup(root_with_string(root, id, value), tk) == Some(ResNode::Table(t2)));
    assert(lookup(t2, bk) == Some(ResNode::Table(b2)));
    assert forall|ob: u32| ob != block_of(id) implies #[trigger] lookup(
        table_of(lookup(root_with_string(root, id, value), tk)),
        EntryKey::Id(ob),
    ) == lookup(types, EntryKey::Id(ob)) by {
        assert(lookup(t2, EntryKey::Id(ob)) == lookup(t1, EntryKey::Id(ob)));
    }
}

/// Writing a string and reading it back gives that string (or nothing, for
/// the empty string), and every other string id reads as before; this holds
/// unless the block of the string starts with a table entry, which the
/// write leaves as it is.
pub proof fn lemma_write_then_read(root: Seq<(EntryKey, ResNode)>, id: u32, value: Seq<char>)
    requires
        string_slots_writable(root, id),
        !block_starts_with_table(root, id),
        encode_utf16(value).len() <= 0xFFFF,
    ensures
        string_resource(root_with_string(root, id, encode_utf16(value)), id) == (if value.len()
            == 0 {
            None
        } else {
            Some(value)
        }),
        forall|other: u32|
            other != id ==> #[trigger] string_resource(
                root_with_string(root, id, encode_utf16(value)),
                other,
            ) == string_resource(root, other),
{
    let v16 = encode_utf16(value);
    let new_root = root_with_string(root, id, v16);
    let tk = EntryKey::Id(RT_STRING);
    let bk = EntryKey::Id(block_of(id));
    let pos = index_in_block(id);
    lemma_written_block(root, id, v16);
    lemma_utf16_round_trip(value);
    let r1 = ensured(root, tk);
    lemma_ensured(root, tk);
    let types = table_of(lookup(r1, tk));
    let t1 = ensured(types, bk);
    lemma_ensured(types, bk);
    let b = table_of(lookup(t1, bk));
    assert(b == table_of(lookup(types, bk)));
    let b1 = if b.len() == 0 {
        seq![(EntryKey::Id(LANGUAGE_ID_EN_US), ResNode::Data(Seq::empty(), CODE_PAGE_ID_EN_US))]
    } else {
        b
    };
    let old_bytes = match b1[0].1 {
        ResNode::Data(bytes, _) => bytes,
        ResNode::Table(_) => Seq::empty(),
    };
    let new_bytes = block_with(old_bytes, pos, v16);
    let cp = match b1[0].1 {
        ResNode::Data(_, c) => c,
        ResNode::Table(_) => 0,
    };
    let b2 = b1.update(0, (b1[0].0, ResNode::Data(new_bytes, cp)));
    let t2 = put(t1, bk, ResNode::Table(b2));
    lemma_put(t1, bk, ResNode::Table(b2));
    lemma_put(r1, tk, ResNode::Table(t2));
    assert(lookup(new_root, tk) == Some(ResNode::Table(t2)));
    assert(lookup(t2, bk) == Some(ResNode::Table(b2)));
    assert(stored_block(new_root, block_of(id)) == Some(new_bytes));
    lemma_block_update(old_bytes, pos, v16);
    if value.len() == 0 {
        assert(v16.len() == 0);
    } else {
        assert(v16.len() > 0);
    }
    assert forall|other: u32| other != id implies #[trigger] string_resource(new_root, other)
        == string_resource(root, other) by {
        let ob = block_of(other);
        if ob == block_of(id) {
            let j = index_in_block(other);
            assert(j != pos);
            assert(block_entry_spec(new_bytes, j) == block_entry_spec(old_bytes, j));
            if b.len() == 0 || lookup(root, tk) is None {
                assert(block_entry_spec(old_bytes, j) is None);
            }
        } else {
            assert(lookup(t2, EntryKey::Id(ob)) == lookup(t1, EntryKey::Id(ob)));
        }
    }
}

/// Writing a string changes no entry of the root other than the string
/// table, and, where the tables on its way are not data, no block of the
/// string table other than its own.
pub proof fn lemma_write_keeps_other_resources(
    root: Seq<(EntryKey, ResNode)>,
    id: u32,
    value: Seq<u16>,
)
    ensures
        forall|k: EntryKey|
            k != EntryKey::Id(RT_STRING) ==> #[trigger] lookup(root_with_string(root, id, value), k)
                == lookup(root, k),
        string_slots_writable(root, id) ==> forall|ob: u32|
            ob != block_of(id) ==> #[trigger] lookup(
                table_of(lookup(root_with_string(root, id, value), EntryKey::Id(RT_STRING))),
                EntryKey::Id(ob),
            ) == lookup(table_of(lookup(root, EntryKey::Id(RT_STRING))), EntryKey::Id(ob)),
{
    if string_slots_writable(root, id) {
        lemma_written_block(root, id, value);
    }
    let tk = EntryKey::Id(RT_STRING);
    let bk = EntryKey::Id(block_of(id));
    let r1 = ensured(root, tk);
    lemma_ensured(root, tk);
    let t1 = ensured(table_of(lookup(r1, tk)), bk);
    let b = table_of(lookup(t1, bk));
    let b1 = if b.len() == 0 {
        seq![(EntryKey::Id(LANGUAGE_ID_EN_US), ResNode::Data(Seq::empty(), CODE_PAGE_ID_EN_US))]
    } else {
        b
    };
    let b2 = match b1[0].1 {
        ResNode::Data(bytes, cp) => b1.update(
            0,
            (b1[0].0, ResNode::Data(block_with(bytes, index_in_block(id), value), cp)),
        ),
        ResNode::Table(_) => b1,
    };
    lemma_put(r1, tk, ResNode::Table(put(t1, bk, ResNode::Table(b2))));
}

/// Writing string `id` twice keeps only the second value: the tree is the
/// one that writing the second value alone gives.
pub proof fn lemma_string_last_write_wins(
    root: Seq<(EntryKey, ResNode)>,
    id: u32,
    v1: Seq<u16>,
    v2: Seq<u16>,
)
    requires
        v1.len() <= 0xFFFF,
    ensures
        root_with_string(root_with_string(root, id, v1), id, v2) == root_with_string(root, id, v2),
{
    let tk = EntryKey::Id(RT_STRING);
    let bk = EntryKey::Id(block_of(id));
    let pos = index_in_block(id);
    let r1 = ensured(root, tk);
    lemma_ensured(root, tk);
    let t1 = ensured(table_of(lookup(r1, tk)), bk);
    lemma_ensured(table_of(lookup(r1, tk)), bk);
    let b = table_of(lookup(t1, bk));
    let b1 = if b.len() == 0 {
        seq![(EntryKey::Id(LANGUAGE_ID_EN_US), ResNode::Data(Seq::empty(), CODE_PAGE_ID_EN_US))]
    } else {
        b
    };
    let b2 = match b1[0].1 {
        ResNode::Data(bytes, cp) => b1.update(
            0,
            (b1[0].0, ResNode::Data(block_with(bytes, pos, v1), cp)),
        ),
        ResNode::Table(_) => b1,
    };
    let b3 = match b1[0].1 {
        ResNode::Data(bytes, cp) => b1.update(
            0,
            (b1[0].0, ResNode::Data(block_with(bytes, pos, v2), cp)),
        ),
        ResNode::Table(_) => b1,
    };
    let t2 = put(t1, bk, ResNode::Table(b2));
    let w1 = put(r1, tk, ResNode::Table(t2));
    assert(w1 == root_with_string(root, id, v1));
    lemma_put(t1, bk, ResNode::Table(b2));
    lemma_put(r1, tk, ResNode::Table(t2));
    // the second write finds both tables and the block's first entry
    assert(ensured(w1, tk) == w1);
    assert(table_of(lookup(w1, tk)) == t2);
    assert(ensured(t2, bk) == t2);
    assert(table_of(lookup(t2, bk)) == b2);
    let b4 = match b2[0].1 {
        ResNode::Data(bytes, cp) => b2.update(
            0,
            (b2[0].0, ResNode::Data(block_with(bytes, pos, v2), cp)),
        ),
        ResNode::Table(_) => b2,
    };
    match b1[0].1 {
        ResNode::Data(bytes, cp) => {
            lemma_block_with_twice(bytes, pos, v1, v2);
            assert(b4 =~= b3);
        },
        ResNode::Table(_) => {},
    }
    assert(root_with_string(w1, id, v2) == put(w1, tk, ResNode::Table(put(t2, bk, ResNode::Table(b4)))));
    lemma_put_put(t1, bk, ResNode::Table(b2), ResNode::Table(b3));
    lemma_put_put(r1, tk, ResNode::Table(t2), ResNode::Table(put(t1, bk, ResNode::Table(b3))));
}

/// Writing the same string twice changes nothing after the first write.
pub proof fn lemma_string_write_idempotent(root: Seq<(EntryKey, ResNode)>, id: u32, value: Seq<u16>)
    requires
        value.len() <= 0xFFFF,
    ensures
        root_with_string(root_with_string(root, id, value), id, value) == root_with_string(
            root,
            id,
            value,
        ),
{
    lemma_string_last_write_wins(root, id, value, value);
}

/// After a write of string `a`, string `b` can still be written and read:
/// neither table on its way is data, and its block does not start with a
/// table.
proof fn lemma_write_keeps_writable(
    root: Seq<(EntryKey, ResNode)>,
    a: u32,
    va: Seq<u16>,
    b: u32,
)
    requires
        string_slots_writable(root, a),
        string_slots_writable(root, b),
        !block_starts_with_table(root, a),
        !block_starts_with_table(root, b),
    ensures
        string_slots_writable(root_with_string(root, a, va), b),
        !block_starts_with_table(root_with_string(root, a, va), b),
{
    lemma_written_block(root, a, va);
    let tk = EntryKey::Id(RT_STRING);
    let new_root = root_with_string(root, a, va);
    if block_of(b) != block_of(a) {
        assert(lookup(table_of(lookup(new_root, tk)), EntryKey::Id(block_of(b))) == lookup(
            table_of(lookup(root, tk)),
            EntryKey::Id(block_of(b)),
        ));
    }
}

/// Writes to two different string ids commute: whichever comes first, every
/// string id reads the same afterwards.
pub proof fn lemma_string_writes_commute(
    root: Seq<(EntryKey, ResNode)>,
    a: u32,
    va: Seq<char>,
    b: u32,
    vb: Seq<char>,
)
    requires
        a != b,
        string_slots_writable(root, a),
        string_slots_writable(root, b),
        !block_starts_with_table(root, a),
        !block_starts_with_table(root, b),
        encode_utf16(va).len() <= 0xFFFF,
        encode_utf16(vb).len() <= 0xFFFF,
    ensures
        forall|k: u32|
            #[trigger] string_resource(
                root_with_string(root_with_string(root, a, encode_utf16(va)), b, encode_utf16(vb)),
                k,
            ) == string_resource(
                root_with_string(root_with_string(root, b, encode_utf16(vb)), a, encode_utf16(va)),
                k,
            ),
{
    let ra = root_with_string(root, a, encode_utf16(va));
    let rb = root_with_string(root, b, encode_utf16(vb));
    lemma_write_then_read(root, a, va);
    lemma_write_then_read(root, b, vb);
    lemma_write_keeps_writable(root, a, encode_utf16(va), b);
    lemma_write_keeps_writable(root, b, encode_utf16(vb), a);
    lemma_write_then_read(ra, b, vb);
    lemma_write_then_read(rb, a, va);
    assert forall|k: u32| #[trigger] string_resource(
        root_with_string(ra, b, encode_utf16(vb)),
        k,
    ) == string_resource(root_with_string(rb, a, encode_utf16(va)), k) by {
        if k != a && k != b {
            assert(string_resource(ra, k) == string_resource(root, k));
            assert(string_resource(rb, k) == string_resource(root, k));
        } else if k == a {
            assert(string_resource(rb, a) == string_resource(root, a));
        } else {
            assert(string_resource(ra, b) == string_resource(root, b));
        }
    }
}

/// A written string of characters below U+10000 is stored as one code unit
/// per character, each equal to the character's scalar value, and is read
/// back as those characters.
pub proof fn lemma_written_units(root: Seq<(EntryKey, ResNode)>, id: u32, value: Seq<char>)
    requires
        string_slots_writable(root, id),
        !block_starts_with_table(root, id),
        value.len() > 0,
        value.len() <= 0xFFFF,
        forall|i: int| 0 <= i < value.len() ==> (#[trigger] value[i] as u32) < 0x10000,
    ensures
        stored_block(root_with_string(root, id, encode_utf16(value)), block_of(id)) matches Some(bytes)
            && block_entry_spec(bytes, index_in_block(id)) matches Some(units) && units.len()
            == value.len() && forall|i: int|
            0 <= i < value.len() ==> #[trigger] units[i] == (value[i] as u32) as u16,
        string_resource(root_with_string(root, id, encode_utf16(value)), id) == Some(value),
{
    lemma_encode_basic_plane(value);
    lemma_written_block(root, id, encode_utf16(value));
    lemma_block_update(block_bytes_or_empty(root, block_of(id)), index_in_block(id), encode_utf16(value));
    lemma_write_then_read(root, id, value);
}

/// The block a string write stores: sixteen records, each a 16-bit
/// little-endian unit count followed by that many little-endian units, with
/// nothing after them; the record of the written string holds its units,
/// the others the strings the block held before.
pub proof fn lemma_written_block_layout(root: Seq<(EntryKey, ResNode)>, id: u32, value: Seq<char>)
    requires
        string_slots_writable(root, id),
        !block_starts_with_table(root, id),
        encode_utf16(value).len() <= 0xFFFF,
    ensures
        ({
            let ss = block_strings_spec(block_bytes_or_empty(root, block_of(id))).update(
                index_in_block(id),
                encode_utf16(value),
            );
            &&& stored_block(root_with_string(root, id, encode_utf16(value)), block_of(id)) == Some(
                encode_slots(ss),
            )
            &&& ss.len() == 16
            &&& ss[index_in_block(id)] == encode_utf16(value)
            &&& forall|j: int| 0 <= j < 16 && j != index_in_block(id) ==> nonempty(#[trigger] ss[j])
                == block_entry_spec(block_bytes_or_empty(root, block_of(id)), j)
            &&& encode_slots(ss).len() == 32 + 2 * total_units(ss)
        }),
{
    let d = block_bytes_or_empty(root, block_of(id));
    let pos = index_in_block(id);
    let v16 = encode_utf16(value);
    lemma_written_block(root, id, v16);
    lemma_block_strings_len(d);
    let ss = block_strings_spec(d).update(pos, v16);
    lemma_encode_slots_len(ss);
    lemma_block_update(d, pos, v16);
    assert forall|j: int| 0 <= j < 16 && j != pos implies nonempty(#[trigger] ss[j])
        == block_entry_spec(d, j) by {
        lemma_block_strings_entry(d, j);
    }
}

/// Reads string `id` from the string table of `resources`.
pub fn get_resource_string(resources: &ResourceDirectory, id: u32) -> (r: Option<String>)
    ensures
        match r {
            Some(s) => string_resource(dir_root(*resources), id) == Some(s@),
            None => string_resource(dir_root(*resources), id) is None,
        },
{
    let block_id = id / 16 + 1;
    let position = (id % 16) as usize;
    let root = root_table(resources);
    let type_table = match table_get(root, &id_name(RT_STRING)) {
        Some(e) => match entry_as_table(e) {
            Some(t) => t,
            None => return None,
        },
        None => return None,
    };
    let block_table = match table_get(type_table, &id_name(block_id)) {
        Some(e) => match entry_as_table(e) {
            Some(t) => t,
            None => return None,
        },
        None => return None,
    };
    let lang = match table_first_name(block_table) {
        Some(n) => n,
        None => return None,
    };
    proof {
        lemma_key_index_is(table_entries(*block_table), name_key(lang), 0);
    }
    let data = match table_get(block_table, &lang) {
        Some(e) => match entry_as_data(e) {
            Some(d) => data_bytes(d),
            None => return None,
        },
        None => return None,
    };
    let units = match block_entry(data, position) {
        Some(u) => u,
        None => return None,
    };
    string_from_utf16(units.as_slice())
}

/// Whether `set_resource_string` can write string `id` (see
/// `can_write_string`).
pub fn can_set_resource_string(resources: &ResourceDirectory, id: u32) -> (r: bool)
    ensures
        r == can_write_string(dir_root(*resources), id),
{
    let root = root_table(resources);
    let kind_name = id_name(RT_STRING);
    if !room_for(root, &kind_name) {
        return false;
    }
    match table_get(root, &kind_name) {
        Some(e) => match entry_as_table(e) {
            Some(t) => {
                let block_name = id_name(id / 16 + 1);
                if !room_for(t, &block_name) {
                    return false;
                }
                match table_get(t, &block_name) {
                    Some(b) => entry_as_table(b).is_some(),
                    None => true,
                }
            },
            None => false,
        },
        None => true,
    }
}

/// Writes `value` as string `id` of the string table of `resources`,
/// creating the string table, the block and its first entry where missing
/// and keeping the other strings of the block.
pub fn set_resource_string(resources: &mut ResourceDirectory, id: u32, value: &str)
    requires
        can_write_string(dir_root(*old(resources)), id),
    ensures
        dir_root(*final(resources)) == root_with_string(
            dir_root(*old(resources)),
            id,
            encode_utf16(value@),
        ),
{
    let ghost root0 = dir_root(*resources);
    let block_id = id / 16 + 1;
    let position = (id % 16) as usize;
    let kind_name = id_name(RT_STRING);
    let block_name = id_name(block_id);
    let mut root = clone_table(root_table(resources));
    let mut type_table = ensure_table(&mut root, &kind_name);
    let ghost t0 = table_entries(type_table);
    proof {
        if lookup(root0, EntryKey::Id(RT_STRING)) is None {
            lemma_put(root0, EntryKey::Id(RT_STRING), ResNode::Table(Seq::empty()));
            assert(t0 == Seq::<(EntryKey, ResNode)>::empty());
            assert(key_index(t0, EntryKey::Id(block_id)) is None);
        }
    }
    let mut block_table = ensure_table(&mut type_table, &block_name);
    let key = match table_first_name(&block_table) {
        Some(n) => n,
        None => {
            table_insert(&mut block_table, default_name(), data_entry(empty_data()));
            assert(table_entries(block_table) =~= seq![
                (EntryKey::Id(LANGUAGE_ID_EN_US), ResNode::Data(Seq::empty(), CODE_PAGE_ID_EN_US)),
            ]);
            default_name()
        },
    };
    let ghost b1 = table_entries(block_table);
    proof {
        lemma_key_index_is(b1, name_key(key), 0);
    }
    let data = match table_get(&block_table, &key) {
        Some(e) => match entry_as_data(e) {
            Some(d) => Some(clone_data(d)),
            None => None,
        },
        None => None,
    };
    if let Some(mut d) = data {
        let mut strings = block_strings(data_bytes(&d));
        let units = str_to_utf16(value);
        let ghost before = strings@;
        strings.set(position, units);
        assert(views(strings@) == views(before).update(position as int, encode_utf16(value@)));
        let new_data = encode_block(&strings);
        set_data_bytes(&mut d, new_data);
        table_insert(&mut block_table, key, data_entry(d));
    }
    table_insert(&mut type_table, block_name, table_entry(block_table));
    table_insert(&mut root, kind_name, table_entry(type_table));
    replace_root(resources, root);
}

} // verus!
