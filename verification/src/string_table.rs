//! The layout of a string-table block: sixteen strings, each stored as a
//! little-endian `u16` count of UTF-16 code units followed by the units
//! themselves, also little-endian.
use vstd::prelude::*;

verus! {

/// Number of strings held by one block of a string table.
pub const STRINGS_PER_BLOCK: usize = 16;

/// The low byte of a little-endian `u16`.
pub open spec fn lo_byte(x: u16) -> u8 {
    (x % 256) as u8
}

/// The high byte of a little-endian `u16`.
pub open spec fn hi_byte(x: u16) -> u8 {
    (x / 256) as u8
}

/// The two little-endian bytes of a `u16`.
pub open spec fn le_bytes(x: u16) -> Seq<u8> {
    seq![lo_byte(x), hi_byte(x)]
}

/// The `u16` stored little-endian at `off`.
pub open spec fn read_u16(d: Seq<u8>, off: int) -> u16 {
    (d[off] + 256 * d[off + 1]) as u16
}

/// `n` code units stored little-endian from `off` on.
pub open spec fn read_units(d: Seq<u8>, off: int, n: nat) -> Seq<u16> {
    Seq::new(n, |j: int| read_u16(d, off + 2 * j))
}

/// The bytes of a run of code units, each little-endian.
pub open spec fn units_bytes(u: Seq<u16>) -> Seq<u8>
    decreases u.len(),
{
    if u.len() == 0 {
        Seq::empty()
    } else {
        le_bytes(u[0]) + units_bytes(u.drop_first())
    }
}

/// The stored form of one string: its unit count (kept to 16 bits) and its units.
pub open spec fn slot_bytes(u: Seq<u16>) -> Seq<u8> {
    le_bytes(u.len() as u16) + units_bytes(u)
}

/// The stored form of a run of strings.
pub open spec fn encode_slots(ss: Seq<Seq<u16>>) -> Seq<u8>
    decreases ss.len(),
{
    if ss.len() == 0 {
        Seq::empty()
    } else {
        slot_bytes(ss[0]) + encode_slots(ss.drop_first())
    }
}

/// The string at index `pos` of a block, read as a lookup does: walking the
/// entries from index `i` at byte offset `off`. `None` where a header is
/// missing, where the entry is empty, or where its units run past the data.
pub open spec fn lookup_from(d: Seq<u8>, off: int, i: int, pos: int) -> Option<Seq<u16>>
    decreases 16 - i,
{
    if i >= 16 || off + 2 > d.len() {
        None
    } else {
        let n = read_u16(d, off);
        if i == pos {
            if n == 0 || off + 2 + 2 * n > d.len() {
                None
            } else {
                Some(read_units(d, off + 2, n as nat))
            }
        } else {
            lookup_from(d, off + 2 + 2 * n, i + 1, pos)
        }
    }
}

/// The string at index `pos` of the block `d`.
pub open spec fn block_entry_spec(d: Seq<u8>, pos: int) -> Option<Seq<u16>> {
    lookup_from(d, 0, 0, pos)
}

/// The strings of a block from index `i` at byte offset `off` on, read as
/// an update does: an entry whose header is missing, or whose units run
/// past the data, reads as empty.
pub open spec fn parse_from(d: Seq<u8>, off: int, i: int) -> Seq<Seq<u16>>
    decreases 16 - i,
{
    if i >= 16 {
        Seq::empty()
    } else if off + 2 > d.len() {
        seq![Seq::<u16>::empty()] + parse_from(d, off, i + 1)
    } else {
        let n = read_u16(d, off);
        let units = if n > 0 && off + 2 + 2 * n <= d.len() {
            read_units(d, off + 2, n as nat)
        } else {
            Seq::<u16>::empty()
        };
        seq![units] + parse_from(d, off + 2 + 2 * n, i + 1)
    }
}

/// All sixteen strings of the block `d`.
pub open spec fn block_strings_spec(d: Seq<u8>) -> Seq<Seq<u16>> {
    parse_from(d, 0, 0)
}

/// A string as a lookup reports it: `None` when empty.
pub open spec fn nonempty(u: Seq<u16>) -> Option<Seq<u16>> {
    if u.len() == 0 {
        None
    } else {
        Some(u)
    }
}

/// The block `d` with the string at `pos` replaced by `value`, the other
/// strings as an update reads them.
pub open spec fn block_with(d: Seq<u8>, pos: int, value: Seq<u16>) -> Seq<u8> {
    encode_slots(block_strings_spec(d).update(pos, value))
}

/// The code units held by each vector.
pub open spec fn views(v: Seq<Vec<u16>>) -> Seq<Seq<u16>> {
    v.map_values(|u: Vec<u16>| u@)
}

/// Every string fits the 16-bit unit count of the layout.
pub open spec fn counts_fit(ss: Seq<Seq<u16>>) -> bool {
    forall|k: int| 0 <= k < ss.len() ==> #[trigger] ss[k].len() <= 0xFFFF
}

/// The two bytes of a `u16` read back as that `u16`.
proof fn lemma_le_round_trip(x: u16)
    ensures
        (lo_byte(x) + 256 * hi_byte(x)) as u16 == x,
        lo_byte(x) + 256 * hi_byte(x) == x,
{
    assert(x % 256 + 256 * (x / 256) == x) by (nonlinear_arith);
    assert(x / 256 < 256) by (nonlinear_arith)
        requires x <= 0xFFFF;
}

/// The stored units: two bytes per unit, low byte first.
proof fn lemma_units_bytes_index(u: Seq<u16>)
    ensures
        units_bytes(u).len() == 2 * u.len(),
        forall|j: int|
            #![trigger u[j]]
            0 <= j < u.len() ==> units_bytes(u)[2 * j] == lo_byte(u[j]) && units_bytes(u)[2 * j
                + 1] == hi_byte(u[j]),
    decreases u.len(),
{
    if u.len() > 0 {
        let rest = u.drop_first();
        lemma_units_bytes_index(rest);
        assert forall|j: int| 0 <= j < u.len() implies units_bytes(u)[2 * j] == lo_byte(u[j])
            && units_bytes(u)[2 * j + 1] == hi_byte(u[j]) by {
            if j > 0 {
                assert(rest[j - 1] == u[j]);
                assert(units_bytes(u)[2 * j] == units_bytes(rest)[2 * (j - 1)]);
                assert(units_bytes(u)[2 * j + 1] == units_bytes(rest)[2 * (j - 1) + 1]);
            }
        }
    }
}

/// Strings read from a block always fit the 16-bit count.
proof fn lemma_parse_counts_fit(d: Seq<u8>, off: int, i: int)
    requires
        0 <= i <= 16,
    ensures
        counts_fit(parse_from(d, off, i)),
    decreases 16 - i,
{
    lemma_parse_len(d, off, i);
    if i < 16 {
        if off + 2 > d.len() {
            lemma_parse_counts_fit(d, off, i + 1);
        } else {
            lemma_parse_counts_fit(d, off + 2 + 2 * read_u16(d, off), i + 1);
        }
        let ss = parse_from(d, off, i);
        assert forall|k: int| 0 <= k < ss.len() implies #[trigger] ss[k].len() <= 0xFFFF by {
            if k > 0 {
                if off + 2 > d.len() {
                    assert(ss[k] == parse_from(d, off, i + 1)[k - 1]);
                } else {
                    assert(ss[k] == parse_from(d, off + 2 + 2 * read_u16(d, off), i + 1)[k - 1]);
                }
            }
        }
    }
}

/// Reading back a run of stored strings gives those strings.
proof fn lemma_parse_encoded(p: Seq<u8>, ss: Seq<Seq<u16>>, i: int)
    requires
        0 <= i <= 16,
        ss.len() == 16 - i,
        counts_fit(ss),
    ensures
        parse_from(p + encode_slots(ss), p.len() as int, i) == ss,
    decreases 16 - i,
{
    if i < 16 {
        let u = ss[0];
        let rest = ss.drop_first();
        let q = p + slot_bytes(u);
        let d = q + encode_slots(rest);
        let off = p.len() as int;
        assert(p + encode_slots(ss) == d);
        assert(u.len() <= 0xFFFF);
        lemma_units_bytes_index(u);
        lemma_le_round_trip(u.len() as u16);
        assert(d[off] == lo_byte(u.len() as u16));
        assert(d[off + 1] == hi_byte(u.len() as u16));
        assert(read_u16(d, off) == u.len());
        if u.len() > 0 {
            assert forall|j: int| 0 <= j < u.len() implies #[trigger] read_units(
                d,
                off + 2,
                u.len(),
            )[j] == u[j] by {
                lemma_le_round_trip(u[j]);
                assert(d[off + 2 + 2 * j] == units_bytes(u)[2 * j]);
                assert(d[off + 2 + 2 * j + 1] == units_bytes(u)[2 * j + 1]);
            }
            assert(read_units(d, off + 2, u.len()) == u);
        } else {
            assert(u == Seq::<u16>::empty());
        }
        assert(counts_fit(rest)) by {
            assert forall|k: int| 0 <= k < rest.len() implies #[trigger] rest[k].len() <= 0xFFFF by {
                assert(rest[k] == ss[k + 1]);
            }
        }
        lemma_parse_encoded(q, rest, i + 1);
        assert(off + 2 + 2 * u.len() == q.len());
        assert(ss == seq![u] + rest);
    }
}

/// A lookup reports the string that an update reads at the same index,
/// or `None` where that string is empty.
proof fn lemma_lookup_is_parse(d: Seq<u8>, off: int, i: int, pos: int)
    requires
        0 <= i <= pos < 16,
    ensures
        lookup_from(d, off, i, pos) == nonempty(parse_from(d, off, i)[pos - i]),
    decreases pos - i,
{
    if off + 2 > d.len() {
        lemma_parse_len(d, off, i + 1);
        if i < pos {
            lemma_lookup_is_parse(d, off, i + 1, pos);
            assert(parse_from(d, off, i)[pos - i] == parse_from(d, off, i + 1)[pos - i - 1]);
        }
    } else {
        let n = read_u16(d, off);
        lemma_parse_len(d, off + 2 + 2 * n, i + 1);
        if i < pos {
            lemma_lookup_is_parse(d, off + 2 + 2 * n, i + 1, pos);
            assert(parse_from(d, off, i)[pos - i] == parse_from(d, off + 2 + 2 * n, i + 1)[pos - i
                - 1]);
        }
    }
}

/// Reading back the stored form of sixteen strings, each of at most 65535
/// units, gives those strings.
pub proof fn lemma_block_round_trip(ss: Seq<Seq<u16>>)
    requires
        ss.len() == 16,
        counts_fit(ss),
    ensures
        block_strings_spec(encode_slots(ss)) == ss,
{
    lemma_parse_encoded(Seq::empty(), ss, 0);
    assert(Seq::<u8>::empty() + encode_slots(ss) == encode_slots(ss));
}

/// Replacing the string at `pos` of a block: a lookup at `pos` gives the new
/// string (`None` when it is empty), and a lookup at any other index gives
/// what it gave before.
pub proof fn lemma_block_update(d: Seq<u8>, pos: int, value: Seq<u16>)
    requires
        0 <= pos < 16,
        value.len() <= 0xFFFF,
    ensures
        block_entry_spec(block_with(d, pos, value), pos) == nonempty(value),
        forall|j: int|
            0 <= j < 16 && j != pos ==> #[trigger] block_entry_spec(block_with(d, pos, value), j)
                == block_entry_spec(d, j),
{
    let ss = block_strings_spec(d);
    lemma_parse_len(d, 0, 0);
    lemma_parse_counts_fit(d, 0, 0);
    let ss2 = ss.update(pos, value);
    assert(counts_fit(ss2)) by {
        assert forall|k: int| 0 <= k < ss2.len() implies #[trigger] ss2[k].len() <= 0xFFFF by {
            if k != pos {
                assert(ss2[k] == ss[k]);
            }
        }
    }
    let e = encode_slots(ss2);
    lemma_parse_encoded(Seq::empty(), ss2, 0);
    assert(Seq::<u8>::empty() + e == e);
    assert(block_strings_spec(e) == ss2);
    lemma_lookup_is_parse(e, 0, 0, pos);
    assert forall|j: int| 0 <= j < 16 && j != pos implies #[trigger] block_entry_spec(
        block_with(d, pos, value),
        j,
    ) == block_entry_spec(d, j) by {
        lemma_lookup_is_parse(e, 0, 0, j);
        lemma_lookup_is_parse(d, 0, 0, j);
    }
}

/// Reads the little-endian `u16` at `off`.
fn read_u16_at(d: &[u8], off: usize) -> (r: u16)
    requires
        off + 2 <= d@.len(),
    ensures
        r == read_u16(d@, off as int),
{
    d[off] as u16 + (d[off + 1] as u16) * 256
}

/// Reads `n` little-endian code units starting at `off`.
fn read_units_at(d: &[u8], off: usize, n: usize) -> (r: Vec<u16>)
    requires
        off + 2 * n <= d@.len(),
    ensures
        r@ == read_units(d@, off as int, n as nat),
{
    let mut out: Vec<u16> = Vec::new();
    let mut j: usize = 0;
    let len = d.len();
    while j < n
        invariant
            j <= n,
            len == d@.len(),
            off + 2 * n <= d@.len(),
            out@ == read_units(d@, off as int, j as nat),
        decreases n - j,
    {
        let x = read_u16_at(d, off + 2 * j);
        out.push(x);
        j = j + 1;
        assert(out@ == read_units(d@, off as int, j as nat));
    }
    out
}

/// The string at index `pos` of the block `data`, as a lookup reads it.
pub fn block_entry(data: &[u8], pos: usize) -> (r: Option<Vec<u16>>)
    requires
        pos < STRINGS_PER_BLOCK,
    ensures
        match r {
            Some(u) => block_entry_spec(data@, pos as int) == Some(u@),
            None => block_entry_spec(data@, pos as int) is None,
        },
{
    let len = data.len();
    let mut offset: usize = 0;
    let mut i: usize = 0;
    while i < STRINGS_PER_BLOCK
        invariant
            i <= pos < STRINGS_PER_BLOCK,
            len == data@.len(),
            offset <= len,
            block_entry_spec(data@, pos as int) == lookup_from(data@, offset as int, i as int, pos as int),
        decreases STRINGS_PER_BLOCK - i,
    {
        if len < 2 || offset > len - 2 {
            return None;
        }
        let n = read_u16_at(data, offset) as usize;
        let start = offset + 2;
        if i == pos {
            if n == 0 || n > (len - start) / 2 {
                return None;
            }
            return Some(read_units_at(data, start, n));
        }
        if n > (len - start) / 2 {
            assert(lookup_from(data@, start + 2 * n, i + 1, pos as int) is None);
            return None;
        }
        offset = start + 2 * n;
        i = i + 1;
    }
    None
}

/// Past the end of the data, every remaining string reads as empty,
/// wherever the offset stands.
proof fn lemma_parse_past_end(d: Seq<u8>, off: int, i: int)
    requires
        off + 2 > d.len(),
    ensures
        parse_from(d, off, i) == parse_from(d, d.len() as int, i),
    decreases 16 - i,
{
    if i < 16 {
        lemma_parse_past_end(d, off, i + 1);
    }
}

/// The strings read from index `i` on number `16 - i`.
proof fn lemma_parse_len(d: Seq<u8>, off: int, i: int)
    requires
        0 <= i <= 16,
    ensures
        parse_from(d, off, i).len() == 16 - i,
    decreases 16 - i,
{
    if i < 16 {
        if off + 2 > d.len() {
            lemma_parse_len(d, off, i + 1);
        } else {
            lemma_parse_len(d, off + 2 + 2 * read_u16(d, off), i + 1);
        }
    }
}

/// All sixteen strings of the block `data`, as an update reads them.
pub fn block_strings(data: &[u8]) -> (r: Vec<Vec<u16>>)
    ensures
        views(r@) == block_strings_spec(data@),
        r.len() == STRINGS_PER_BLOCK,
{
    let len = data.len();
    let mut out: Vec<Vec<u16>> = Vec::new();
    let mut offset: usize = 0;
    let mut i: usize = 0;
    proof {
        lemma_parse_len(data@, 0, 0);
        assert(views(out@) + parse_from(data@, 0, 0) == parse_from(data@, 0, 0));
    }
    while i < STRINGS_PER_BLOCK
        invariant
            i <= STRINGS_PER_BLOCK,
            len == data@.len(),
            offset <= len,
            out.len() == i,
            block_strings_spec(data@) == views(out@) + parse_from(data@, offset as int, i as int),
        decreases STRINGS_PER_BLOCK - i,
    {
        let ghost before = views(out@);
        let ghost old_off = offset as int;
        if len < 2 || offset > len - 2 {
            out.push(Vec::new());
            assert(views(out@) == before.push(Seq::<u16>::empty()));
        } else {
            let n = read_u16_at(data, offset) as usize;
            let start = offset + 2;
            if n <= (len - start) / 2 {
                let units = if n > 0 {
                    read_units_at(data, start, n)
                } else {
                    Vec::new()
                };
                let ghost uv = units@;
                out.push(units);
                assert(views(out@) == before.push(uv));
                offset = start + 2 * n;
            } else {
                out.push(Vec::new());
                assert(views(out@) == before.push(Seq::<u16>::empty()));
                proof {
                    lemma_parse_past_end(data@, start + 2 * n, i + 1);
                    lemma_parse_past_end(data@, len as int, i + 1);
                }
                offset = len;
            }
        }
        i = i + 1;
        assert(block_strings_spec(data@) == views(out@) + parse_from(data@, offset as int, i as int));
    }
    assert(parse_from(data@, offset as int, 16) == Seq::<Seq<u16>>::empty());
    assert(views(out@) + Seq::<Seq<u16>>::empty() == views(out@));
    out
}

/// Appending one code unit appends its two bytes.
proof fn lemma_units_bytes_push(a: Seq<u16>, x: u16)
    ensures
        units_bytes(a.push(x)) == units_bytes(a) + le_bytes(x),
    decreases a.len(),
{
    if a.len() == 0 {
        assert(a.push(x).drop_first() == Seq::<u16>::empty());
        assert(units_bytes(a.push(x).drop_first()) == Seq::<u8>::empty());
        assert(a.push(x)[0] == x);
        assert(units_bytes(a.push(x)) == le_bytes(x) + Seq::<u8>::empty());
        assert(le_bytes(x) + Seq::<u8>::empty() == le_bytes(x));
        assert(Seq::<u8>::empty() + le_bytes(x) == le_bytes(x));
    } else {
        assert(a.push(x).drop_first() == a.drop_first().push(x));
        lemma_units_bytes_push(a.drop_first(), x);
        assert(le_bytes(a[0]) + (units_bytes(a.drop_first()) + le_bytes(x)) == (le_bytes(a[0])
            + units_bytes(a.drop_first())) + le_bytes(x));
    }
}

/// Appending one string appends its stored form.
proof fn lemma_encode_slots_push(a: Seq<Seq<u16>>, x: Seq<u16>)
    ensures
        encode_slots(a.push(x)) == encode_slots(a) + slot_bytes(x),
    decreases a.len(),
{
    if a.len() == 0 {
        assert(a.push(x).drop_first() == Seq::<Seq<u16>>::empty());
        assert(encode_slots(a.push(x).drop_first()) == Seq::<u8>::empty());
        assert(a.push(x)[0] == x);
        assert(encode_slots(a.push(x)) == slot_bytes(x) + Seq::<u8>::empty());
        assert(slot_bytes(x) + Seq::<u8>::empty() == slot_bytes(x));
        assert(Seq::<u8>::empty() + slot_bytes(x) == slot_bytes(x));
    } else {
        assert(a.push(x).drop_first() == a.drop_first().push(x));
        lemma_encode_slots_push(a.drop_first(), x);
        assert(slot_bytes(a[0]) + (encode_slots(a.drop_first()) + slot_bytes(x)) == (slot_bytes(a[0])
            + encode_slots(a.drop_first())) + slot_bytes(x));
    }
}

/// Appends the two little-endian bytes of `x`.
fn push_u16(out: &mut Vec<u8>, x: u16)
    ensures
        final(out)@ == old(out)@ + le_bytes(x),
{
    out.push((x % 256) as u8);
    out.push((x / 256) as u8);
}

/// The stored form of a block holding the given strings; a count above
/// 65535 is kept to its low 16 bits.
pub fn encode_block(strings: &Vec<Vec<u16>>) -> (r: Vec<u8>)
    ensures
        r@ == encode_slots(views(strings@)),
{
    let mut out: Vec<u8> = Vec::new();
    let mut i: usize = 0;
    assert(views(strings@).take(0) == Seq::<Seq<u16>>::empty());
    while i < strings.len()
        invariant
            i <= strings.len(),
            out@ == encode_slots(views(strings@).take(i as int)),
        decreases strings.len() - i,
    {
        let units = &strings[i];
        let ghost base = out@;
        push_u16(&mut out, units.len() as u16);
        let mut j: usize = 0;
        assert(units@.take(0) == Seq::<u16>::empty());
        while j < units.len()
            invariant
                j <= units.len(),
                out@ == base + le_bytes(units@.len() as u16) + units_bytes(units@.take(j as int)),
            decreases units.len() - j,
        {
            proof {
                lemma_units_bytes_push(units@.take(j as int), units@[j as int]);
                assert(units@.take(j as int).push(units@[j as int]) == units@.take(j + 1));
            }
            push_u16(&mut out, units[j]);
            j = j + 1;
        }
        proof {
            assert(units@.take(units@.len() as int) == units@);
            lemma_encode_slots_push(views(strings@).take(i as int), units@);
            assert(views(strings@).take(i as int).push(units@) == views(strings@).take(i + 1));
        }
        i = i + 1;
    }
    assert(views(strings@).take(strings.len() as int) == views(strings@));
    out
}

/// Replacing the same string of a block twice keeps only the second value.
pub proof fn lemma_block_with_twice(d: Seq<u8>, pos: int, v1: Seq<u16>, v2: Seq<u16>)
    requires
        0 <= pos < 16,
        v1.len() <= 0xFFFF,
    ensures
        block_with(block_with(d, pos, v1), pos, v2) == block_with(d, pos, v2),
{
    let ss = block_strings_spec(d);
    lemma_parse_len(d, 0, 0);
    lemma_parse_counts_fit(d, 0, 0);
    let ss1 = ss.update(pos, v1);
    assert(counts_fit(ss1)) by {
        assert forall|k: int| 0 <= k < ss1.len() implies #[trigger] ss1[k].len() <= 0xFFFF by {
            if k != pos {
                assert(ss1[k] == ss[k]);
            }
        }
    }
    lemma_block_round_trip(ss1);
    assert(ss1.update(pos, v2) =~= ss.update(pos, v2));
}

/// The number of code units of a run of strings.
pub open spec fn total_units(ss: Seq<Seq<u16>>) -> nat
    decreases ss.len(),
{
    if ss.len() == 0 {
        0
    } else {
        ss[0].len() + total_units(ss.drop_first())
    }
}

/// The stored form of a run of strings takes two bytes for each string's
/// count and two for each of its units.
pub proof fn lemma_encode_slots_len(ss: Seq<Seq<u16>>)
    ensures
        encode_slots(ss).len() == 2 * ss.len() + 2 * total_units(ss),
    decreases ss.len(),
{
    if ss.len() > 0 {
        lemma_encode_slots_len(ss.drop_first());
        lemma_units_bytes_len(ss[0]);
    }
}

/// Each unit takes two bytes.
proof fn lemma_units_bytes_len(u: Seq<u16>)
    ensures
        units_bytes(u).len() == 2 * u.len(),
    decreases u.len(),
{
    if u.len() > 0 {
        lemma_units_bytes_len(u.drop_first());
    }
}

/// A block holds sixteen strings.
pub proof fn lemma_block_strings_len(d: Seq<u8>)
    ensures
        block_strings_spec(d).len() == 16,
{
    lemma_parse_len(d, 0, 0);
}

/// A lookup reports the string an update reads, or `None` where it is empty.
pub proof fn lemma_block_strings_entry(d: Seq<u8>, j: int)
    requires
        0 <= j < 16,
    ensures
        block_entry_spec(d, j) == nonempty(block_strings_spec(d)[j]),
{
    lemma_lookup_is_parse(d, 0, 0, j);
}

} // verus!
