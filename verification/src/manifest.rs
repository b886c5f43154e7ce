//! Setting the requested execution level in an application manifest
//! (an XML document held as text).
use vstd::prelude::*;
use crate::text::{chars_of, string_from_chars};

verus! {

/// The element that carries the execution level.
pub const LEVEL_ELEMENT: &'static str = "requestedExecutionLevel";

/// The attribute that holds the execution level.
pub const LEVEL_ATTRIBUTE: &'static str = "level=";

/// The closing tag of a manifest's root element.
pub const ASSEMBLY_END: &'static str = "</assembly>";

/// The opening of a trust-info block, up to the level value.
pub const TRUST_INFO_PREFIX: &'static str = "  <trustInfo xmlns=\"urn:schemas-microsoft-com:asm.v2\">\n    <security>\n      <requestedPrivileges xmlns=\"urn:schemas-microsoft-com:asm.v3\">\n        <requestedExecutionLevel level=\"";

/// The rest of a trust-info block, after the level value.
pub const TRUST_INFO_SUFFIX: &'static str = "\" uiAccess=\"false\"/>\n      </requestedPrivileges>\n    </security>\n  </trustInfo>\n";

/// The start of a new manifest, before its trust-info block.
pub const MANIFEST_HEADER: &'static str = "<?xml version=\"1.0\" encoding=\"UTF-8\" standalone=\"yes\"?>\n<assembly xmlns=\"urn:schemas-microsoft-com:asm.v1\" manifestVersion=\"1.0\">\n  <assemblyIdentity version=\"1.0.0.0\" name=\"Application\" type=\"win32\"/>\n";

/// `p` occurs in `h` at index `k`.
pub open spec fn occurs_at(h: Seq<char>, p: Seq<char>, k: int) -> bool {
    0 <= k && k + p.len() <= h.len() && h.subrange(k, k + p.len()) == p
}

/// The first index at or after `k` where `p` occurs in `h`.
pub open spec fn find_from(h: Seq<char>, p: Seq<char>, k: int) -> Option<int>
    decreases h.len() + 1 - k,
{
    if k < 0 || k + p.len() > h.len() {
        None
    } else if occurs_at(h, p, k) {
        Some(k)
    } else {
        find_from(h, p, k + 1)
    }
}

/// The last index at or before `k` where `p` occurs in `h`.
pub open spec fn rfind_from(h: Seq<char>, p: Seq<char>, k: int) -> Option<int>
    decreases k + 1,
{
    if k < 0 {
        None
    } else if occurs_at(h, p, k) {
        Some(k)
    } else {
        rfind_from(h, p, k - 1)
    }
}

/// The last index where `p` occurs in `h`.
pub open spec fn rfind(h: Seq<char>, p: Seq<char>) -> Option<int> {
    rfind_from(h, p, h.len() - p.len())
}

/// The manifest with the value of the first `level=` attribute after the
/// first `requestedExecutionLevel` replaced by `level`, the quote kept;
/// `None` where there is no such element, no such attribute, the value is
/// not quoted, or its closing quote is missing.
pub open spec fn update_level(m: Seq<char>, level: Seq<char>) -> Option<Seq<char>> {
    match find_from(m, LEVEL_ELEMENT@, 0) {
        None => None,
        Some(e) => match find_from(m, LEVEL_ATTRIBUTE@, e) {
            None => None,
            Some(at) => {
                let a = at + LEVEL_ATTRIBUTE@.len();
                if a < m.len() && (m[a] == '"' || m[a] == '\'') {
                    match find_from(m, seq![m[a]], a + 1) {
                        None => None,
                        Some(end) => Some(m.take(a + 1) + level + seq![m[a]] + m.skip(end + 1)),
                    }
                } else {
                    None
                }
            },
        },
    }
}

/// A trust-info block requesting `level`.
pub open spec fn trust_info(level: Seq<char>) -> Seq<char> {
    TRUST_INFO_PREFIX@ + level + TRUST_INFO_SUFFIX@
}

/// The attribute text that carries `level`: ` level="` + level + `"`.
pub open spec fn level_attribute_text(level: Seq<char>) -> Seq<char> {
    seq![' '] + LEVEL_ATTRIBUTE@ + seq!['"'] + level + seq!['"']
}

/// The manifest with a `level` attribute holding `level` added right after
/// the name of the first `requestedExecutionLevel`, where that element is
/// present and no `level=` follows it; `None` otherwise.
pub open spec fn add_level(m: Seq<char>, level: Seq<char>) -> Option<Seq<char>> {
    match find_from(m, LEVEL_ELEMENT@, 0) {
        Some(e) => if find_from(m, LEVEL_ATTRIBUTE@, e) is None {
            let c = e + LEVEL_ELEMENT@.len();
            Some(m.take(c) + level_attribute_text(level) + m.skip(c))
        } else {
            None
        },
        None => None,
    }
}

/// The manifest with its requested execution level set to `level`: the
/// existing attribute updated in place; else, where the element is present
/// without a `level` attribute, that attribute added to it; else, in a
/// non-empty manifest with a closing `</assembly>`, a trust-info block
/// inserted before the last one; else a new minimal manifest.
pub open spec fn with_execution_level(m: Seq<char>, level: Seq<char>) -> Seq<char> {
    match update_level(m, level) {
        Some(u) => u,
        None => match add_level(m, level) {
            Some(u) => u,
            None => if m.len() > 0 && rfind(m, ASSEMBLY_END@) is Some {
                let p = rfind(m, ASSEMBLY_END@)->0;
                m.take(p) + trust_info(level) + m.skip(p)
            } else {
                MANIFEST_HEADER@ + trust_info(level) + ASSEMBLY_END@
            },
        },
    }
}

/// `s` holds neither kind of quote.
pub open spec fn unquoted(s: Seq<char>) -> bool {
    forall|i: int| 0 <= i < s.len() ==> s[i] != '"' && s[i] != '\''
}

/// Every `level=` attribute of `m` is followed by a quote that is closed
/// later on.
pub open spec fn level_values_quoted(m: Seq<char>) -> bool {
    forall|at: int| #[trigger] occurs_at(m, LEVEL_ATTRIBUTE@, at) ==> {
        let a = at + LEVEL_ATTRIBUTE@.len();
        &&& a < m.len()
        &&& (m[a] == '"' || m[a] == '\'')
        &&& exists|end: int| a < end < m.len() && #[trigger] m[end] == m[a]
    }
}

/// In `m`, the first `level=` attribute after the first
/// `requestedExecutionLevel` holds `level` between two equal quotes.
pub open spec fn holds_level(m: Seq<char>, level: Seq<char>) -> bool {
    match find_from(m, LEVEL_ELEMENT@, 0) {
        Some(e) => match find_from(m, LEVEL_ATTRIBUTE@, e) {
            Some(at) => {
                let a = at + LEVEL_ATTRIBUTE@.len();
                &&& a + level.len() + 1 < m.len()
                &&& (m[a] == '"' || m[a] == '\'')
                &&& m.subrange(a + 1, a + 1 + level.len()) == level
                &&& m[a + 1 + level.len()] == m[a]
            },
            None => false,
        },
        None => false,
    }
}

/// A forward search finds the first occurrence at or after its start.
proof fn lemma_find_from_first(h: Seq<char>, p: Seq<char>, k: int, i: int)
    requires
        0 <= k <= i,
        occurs_at(h, p, i),
        forall|j: int| k <= j < i ==> !occurs_at(h, p, j),
    ensures
        find_from(h, p, k) == Some(i),
    decreases i - k,
{
    if k < i {
        lemma_find_from_first(h, p, k + 1, i);
    }
}

/// A forward search passes over no occurrence.
proof fn lemma_find_from_skips(h: Seq<char>, p: Seq<char>, k: int)
    requires
        0 <= k,
    ensures
        find_from(h, p, k) matches Some(i) ==> forall|j: int| k <= j < i ==> !occurs_at(h, p, j),
        find_from(h, p, k) is None ==> forall|j: int| k <= j ==> !occurs_at(h, p, j),
    decreases h.len() + 1 - k,
{
    if k + p.len() <= h.len() && !occurs_at(h, p, k) {
        lemma_find_from_skips(h, p, k + 1);
    }
}

/// Two texts that agree on a window agree on whether `p` occurs there.
proof fn lemma_occurs_same(h1: Seq<char>, j1: int, h2: Seq<char>, j2: int, p: Seq<char>)
    requires
        0 <= j1,
        j1 + p.len() <= h1.len(),
        0 <= j2,
        j2 + p.len() <= h2.len(),
        forall|x: int| j1 <= x < j1 + p.len() ==> #[trigger] h1[x] == h2[x - j1 + j2],
    ensures
        occurs_at(h1, p, j1) == occurs_at(h2, p, j2),
{
    assert forall|t: int| 0 <= t < p.len() implies #[trigger] h1.subrange(j1, j1 + p.len())[t] == h2.subrange(j2, j2 + p.len())[t] by {
        assert(h1[j1 + t] == h2[(j1 + t) - j1 + j2]);
    }
    assert(h1.subrange(j1, j1 + p.len()) =~= h2.subrange(j2, j2 + p.len()));
}

/// Each character of an occurrence is the pattern's.
proof fn lemma_occurs_char(h: Seq<char>, p: Seq<char>, j: int, x: int)
    requires
        occurs_at(h, p, j),
        j <= x < j + p.len(),
    ensures
        h[x] == p[x - j],
{
    assert(h.subrange(j, j + p.len())[x - j] == h[x]);
}

/// What the searches need to know of the fixed texts.
proof fn lemma_fixed_texts()
    ensures
        LEVEL_ELEMENT@.len() == 23,
        LEVEL_ATTRIBUTE@.len() == 6,
        forall|t: int| 0 <= t < 22 ==> LEVEL_ELEMENT@[t] != 'l',
        forall|t: int| 0 <= t < 23 ==> LEVEL_ELEMENT@[t] != ' ' && LEVEL_ELEMENT@[t] != '<',
        forall|t: int| 0 <= t < 6 ==> LEVEL_ATTRIBUTE@[t] != ' ',
        LEVEL_ATTRIBUTE@[0] == 'l',
        ASSEMBLY_END@.len() == 11,
        ASSEMBLY_END@[0] == '<',
        TRUST_INFO_PREFIX@.len() == 179,
        TRUST_INFO_PREFIX@[0] == ' ',
        TRUST_INFO_PREFIX@[178] == '"',
        TRUST_INFO_SUFFIX@.len() > 0,
        TRUST_INFO_SUFFIX@[0] == '"',
        MANIFEST_HEADER@.len() == 202,
        forall|j: int| 0 <= j < 148 ==> !occurs_at(TRUST_INFO_PREFIX@, LEVEL_ELEMENT@, j),
        occurs_at(TRUST_INFO_PREFIX@, LEVEL_ELEMENT@, 148),
        forall|j: int| 0 <= j < 172 ==> !occurs_at(TRUST_INFO_PREFIX@, LEVEL_ATTRIBUTE@, j),
        occurs_at(TRUST_INFO_PREFIX@, LEVEL_ATTRIBUTE@, 172),
        forall|j: int| 0 <= j && j + 23 <= 202 ==> !occurs_at(MANIFEST_HEADER@, LEVEL_ELEMENT@, j),
{
    reveal_strlit("requestedExecutionLevel");
    reveal_strlit("level=");
    reveal_strlit("</assembly>");
    reveal_strlit("  <trustInfo xmlns=\"urn:schemas-microsoft-com:asm.v2\">\n    <security>\n      <requestedPrivileges xmlns=\"urn:schemas-microsoft-com:asm.v3\">\n        <requestedExecutionLevel level=\"");
    reveal_strlit("\" uiAccess=\"false\"/>\n      </requestedPrivileges>\n    </security>\n  </trustInfo>\n");
    reveal_strlit("<?xml version=\"1.0\" encoding=\"UTF-8\" standalone=\"yes\"?>\n<assembly xmlns=\"urn:schemas-microsoft-com:asm.v1\" manifestVersion=\"1.0\">\n  <assemblyIdentity version=\"1.0.0.0\" name=\"Application\" type=\"win32\"/>\n");
    let pre = TRUST_INFO_PREFIX@;
    let el = LEVEL_ELEMENT@;
    let at = LEVEL_ATTRIBUTE@;
    let hd = MANIFEST_HEADER@;
    assert forall|j: int| 0 <= j < 148 implies !occurs_at(pre, el, j) by {
        if occurs_at(pre, el, j) {
            assert(pre.subrange(j, j + 23)[0] == el[0]);
            assert(pre.subrange(j, j + 23)[9] == el[9]);
        }
    }
    assert(pre.subrange(148, 171) =~= el);
    assert forall|j: int| 0 <= j < 172 implies !occurs_at(pre, at, j) by {
        if occurs_at(pre, at, j) {
            assert(pre.subrange(j, j + 6)[0] == at[0]);
            assert(pre.subrange(j, j + 6)[5] == at[5]);
        }
    }
    assert(pre.subrange(172, 178) =~= at);
    assert forall|j: int| 0 <= j && j + 23 <= 202 implies !occurs_at(hd, el, j) by {
        if occurs_at(hd, el, j) {
            assert(hd.subrange(j, j + 23)[0] == el[0]);
            assert(hd.subrange(j, j + 23)[9] == el[9]);
        }
    }
}

/// An attribute updated in place is found again by the next update, which
/// leaves it as it is.
proof fn lemma_update_in_place(m: Seq<char>, level: Seq<char>)
    requires
        unquoted(level),
        update_level(m, level) is Some,
    ensures
        update_level(update_level(m, level)->0, level) == Some(update_level(m, level)->0),
        holds_level(update_level(m, level)->0, level),
{
    lemma_fixed_texts();
    let el = LEVEL_ELEMENT@;
    let att = LEVEL_ATTRIBUTE@;
    lemma_find_from_found(m, el, 0);
    lemma_find_from_skips(m, el, 0);
    let e = find_from(m, el, 0)->0;
    lemma_find_from_found(m, att, e);
    lemma_find_from_skips(m, att, e);
    let at = find_from(m, att, e)->0;
    let a = at + 6;
    let q = m[a];
    lemma_find_from_found(m, seq![q], a + 1);
    let end = find_from(m, seq![q], a + 1)->0;
    let n = level.len();
    let u = m.take(a + 1) + level + seq![q] + m.skip(end + 1);
    assert(update_level(m, level) == Some(u));
    if at < e + 23 {
        lemma_occurs_char(m, el, e, at);
        lemma_occurs_char(m, att, at, at);
    }
    assert(at >= e + 22);
    assert forall|x: int| 0 <= x <= a implies #[trigger] u[x] == m[x] by {}
    assert forall|x: int| a + 1 <= x < a + 1 + n implies #[trigger] u[x] == level[x - a - 1] by {}
    assert(u[a + 1 + n] == q);
    assert forall|j: int| 0 <= j < e implies !occurs_at(u, el, j) by {
        lemma_occurs_same(u, j, m, j, el);
    }
    lemma_occurs_same(u, e, m, e, el);
    lemma_find_from_first(u, el, 0, e);
    assert forall|j: int| e <= j < at implies !occurs_at(u, att, j) by {
        lemma_occurs_same(u, j, m, j, att);
    }
    lemma_occurs_same(u, at, m, at, att);
    lemma_find_from_first(u, att, e, at);
    assert forall|j: int| a + 1 <= j < a + 1 + n implies !occurs_at(u, seq![u[a]], j) by {
        if occurs_at(u, seq![u[a]], j) {
            lemma_occurs_char(u, seq![u[a]], j, j);
        }
    }
    assert(u.subrange(a + 1 + n, a + 2 + n) =~= seq![u[a]]);
    lemma_find_from_first(u, seq![u[a]], a + 1, a + 1 + n);
    assert(u.take(a + 1) + level + seq![u[a]] + u.skip(a + 2 + n) =~= u);
    assert(u.subrange(a + 1, a + 1 + n) =~= level);
}

/// Where the attribute update fails on a manifest whose `level=` values are
/// all quoted, no `level=` follows the first `requestedExecutionLevel`.
proof fn lemma_no_attribute_after_element(m: Seq<char>, level: Seq<char>, e: int)
    requires
        level_values_quoted(m),
        update_level(m, level) is None,
        find_from(m, LEVEL_ELEMENT@, 0) == Some(e),
    ensures
        forall|j: int| e <= j ==> !occurs_at(m, LEVEL_ATTRIBUTE@, j),
{
    lemma_fixed_texts();
    lemma_find_from_found(m, LEVEL_ELEMENT@, 0);
    lemma_find_from_skips(m, LEVEL_ATTRIBUTE@, e);
    if find_from(m, LEVEL_ATTRIBUTE@, e) is Some {
        lemma_find_from_found(m, LEVEL_ATTRIBUTE@, e);
        let at = find_from(m, LEVEL_ATTRIBUTE@, e)->0;
        let a = at + 6;
        assert(occurs_at(m, LEVEL_ATTRIBUTE@, at));
        assert(exists|end: int| a < end < m.len() && #[trigger] m[end] == m[a]);
        let end = choose|end: int| a < end < m.len() && #[trigger] m[end] == m[a];
        assert(m.subrange(end, end + 1) =~= seq![m[a]]);
        assert(occurs_at(m, seq![m[a]], end));
        lemma_find_from_skips(m, seq![m[a]], a + 1);
        assert(find_from(m, seq![m[a]], a + 1) is Some);
    }
}

/// The text with a trust-info block requesting `level` inserted at `p`.
pub open spec fn with_block_at(m: Seq<char>, level: Seq<char>, p: int) -> Seq<char> {
    m.take(p) + trust_info(level) + m.skip(p)
}

/// Where the element occurs nowhere before `p`, the first occurrence after
/// inserting the block at `p` is the block's own.
proof fn lemma_block_element_inside(m: Seq<char>, level: Seq<char>, p: int)
    requires
        0 <= p <= m.len(),
        forall|j: int| 0 <= j && j + 23 <= p ==> !occurs_at(m, LEVEL_ELEMENT@, j),
    ensures
        find_from(with_block_at(m, level, p), LEVEL_ELEMENT@, 0) == Some(p + 148),
{
    lemma_fixed_texts();
    let el = LEVEL_ELEMENT@;
    let pre = TRUST_INFO_PREFIX@;
    let r = with_block_at(m, level, p);
    assert forall|x: int| 0 <= x < p implies #[trigger] r[x] == m[x] by {}
    assert forall|x: int| p <= x < p + 179 implies #[trigger] r[x] == pre[x - p] by {}
    assert forall|j: int| 0 <= j < p + 148 implies !occurs_at(r, el, j) by {
        if j + 23 <= p {
            lemma_occurs_same(r, j, m, j, el);
        } else if j < p {
            if occurs_at(r, el, j) {
                lemma_occurs_char(r, el, j, p);
            }
        } else {
            lemma_occurs_same(r, j, pre, j - p, el);
        }
    }
    lemma_occurs_same(r, p + 148, pre, 148, el);
    lemma_find_from_first(r, el, 0, p + 148);
}

/// With the block inserted at `p` and the first element at `e`, before the
/// block's attribute, the attribute update finds the block's level and
/// leaves the text as it is.
proof fn lemma_block_level(m: Seq<char>, level: Seq<char>, p: int, e: int)
    requires
        0 <= p <= m.len(),
        unquoted(level),
        find_from(with_block_at(m, level, p), LEVEL_ELEMENT@, 0) == Some(e),
        e <= p + 148,
        forall|j: int| e <= j && j + 6 <= p ==> !occurs_at(m, LEVEL_ATTRIBUTE@, j),
    ensures
        update_level(with_block_at(m, level, p), level) == Some(with_block_at(m, level, p)),
        holds_level(with_block_at(m, level, p), level),
{
    lemma_fixed_texts();
    let att = LEVEL_ATTRIBUTE@;
    let pre = TRUST_INFO_PREFIX@;
    let r = with_block_at(m, level, p);
    let n = level.len();
    lemma_find_from_found(r, LEVEL_ELEMENT@, 0);
    assert forall|x: int| 0 <= x < p implies #[trigger] r[x] == m[x] by {}
    assert forall|x: int| p <= x < p + 179 implies #[trigger] r[x] == pre[x - p] by {}
    assert forall|x: int| p + 179 <= x < p + 179 + n implies #[trigger] r[x] == level[x - p - 179] by {}
    assert(r[p + 179 + n] == '"');
    assert forall|j: int| e <= j < p + 172 implies !occurs_at(r, att, j) by {
        if j + 6 <= p {
            lemma_occurs_same(r, j, m, j, att);
        } else if j < p {
            if occurs_at(r, att, j) {
                lemma_occurs_char(r, att, j, p);
            }
        } else {
            lemma_occurs_same(r, j, pre, j - p, att);
        }
    }
    lemma_occurs_same(r, p + 172, pre, 172, att);
    lemma_find_from_first(r, att, e, p + 172);
    let a = p + 178;
    assert(r[a] == '"');
    assert forall|j: int| a + 1 <= j < a + 1 + n implies !occurs_at(r, seq![r[a]], j) by {
        if occurs_at(r, seq![r[a]], j) {
            lemma_occurs_char(r, seq![r[a]], j, j);
        }
    }
    assert(r.subrange(a + 1 + n, a + 2 + n) =~= seq![r[a]]);
    lemma_find_from_first(r, seq![r[a]], a + 1, a + 1 + n);
    assert(r.take(a + 1) + level + seq![r[a]] + r.skip(a + 2 + n) =~= r);
    assert(r.subrange(a + 1, a + 1 + n) =~= level);
}

/// With the attribute added after the element's name, the attribute update
/// finds the added level and leaves the text as it is.
proof fn lemma_attribute_added(m: Seq<char>, level: Seq<char>, e: int)
    requires
        unquoted(level),
        find_from(m, LEVEL_ELEMENT@, 0) == Some(e),
        forall|j: int| e <= j ==> !occurs_at(m, LEVEL_ATTRIBUTE@, j),
    ensures ({
        let r = m.take(e + 23) + level_attribute_text(level) + m.skip(e + 23);
        update_level(r, level) == Some(r) && holds_level(r, level)
    }),
{
    lemma_fixed_texts();
    let el = LEVEL_ELEMENT@;
    let att = LEVEL_ATTRIBUTE@;
    lemma_find_from_found(m, el, 0);
    lemma_find_from_skips(m, el, 0);
    let c = e + 23;
    let n = level.len();
    let r = m.take(c) + level_attribute_text(level) + m.skip(c);
    assert forall|x: int| 0 <= x < c implies #[trigger] r[x] == m[x] by {}
    assert(r[c] == ' ');
    assert forall|x: int| c + 1 <= x < c + 7 implies #[trigger] r[x] == att[x - c - 1] by {}
    assert(r[c + 7] == '"');
    assert forall|x: int| c + 8 <= x < c + 8 + n implies #[trigger] r[x] == level[x - c - 8] by {}
    assert(r[c + 8 + n] == '"');
    assert forall|j: int| 0 <= j < e implies !occurs_at(r, el, j) by {
        lemma_occurs_same(r, j, m, j, el);
    }
    lemma_occurs_same(r, e, m, e, el);
    lemma_find_from_first(r, el, 0, e);
    assert forall|j: int| e <= j < c + 1 implies !occurs_at(r, att, j) by {
        if j + 6 <= c {
            lemma_occurs_same(r, j, m, j, att);
        } else if occurs_at(r, att, j) {
            lemma_occurs_char(r, att, j, c);
        }
    }
    assert(r.subrange(c + 1, c + 7) =~= att);
    lemma_find_from_first(r, att, e, c + 1);
    let a = c + 7;
    assert forall|j: int| a + 1 <= j < a + 1 + n implies !occurs_at(r, seq![r[a]], j) by {
        if occurs_at(r, seq![r[a]], j) {
            lemma_occurs_char(r, seq![r[a]], j, j);
        }
    }
    assert(r.subrange(a + 1 + n, a + 2 + n) =~= seq![r[a]]);
    lemma_find_from_first(r, seq![r[a]], a + 1, a + 1 + n);
    assert(r.take(a + 1) + level + seq![r[a]] + r.skip(a + 2 + n) =~= r);
    assert(r.subrange(a + 1, a + 1 + n) =~= level);
}

/// Where the manifest already holds a quoted `level=` value after the
/// element, setting the level replaces exactly that value: the result is
/// the manifest up to and including the opening quote, then `level`, then
/// the manifest from the closing quote (the first equal quote after it) on.
/// Every other character is kept in place.
pub proof fn lemma_level_updated_in_place(m: Seq<char>, level: Seq<char>) -> (r: (int, int))
    requires
        update_level(m, level) is Some,
    ensures
        7 <= r.0 <= r.1 < m.len(),
        find_from(m, LEVEL_ELEMENT@, 0) matches Some(e) && find_from(m, LEVEL_ATTRIBUTE@, e) == Some(
            r.0 - 7,
        ),
        occurs_at(m, LEVEL_ATTRIBUTE@, r.0 - 7),
        m[r.0 - 1] == '"' || m[r.0 - 1] == '\'',
        m[r.1] == m[r.0 - 1],
        forall|k: int| r.0 <= k < r.1 ==> #[trigger] m[k] != m[r.0 - 1],
        with_execution_level(m, level) == m.take(r.0) + level + m.skip(r.1),
{
    lemma_fixed_texts();
    let el = LEVEL_ELEMENT@;
    let att = LEVEL_ATTRIBUTE@;
    lemma_find_from_found(m, el, 0);
    let e = find_from(m, el, 0)->0;
    lemma_find_from_found(m, att, e);
    let at = find_from(m, att, e)->0;
    let a = at + 6;
    let q = m[a];
    lemma_find_from_found(m, seq![q], a + 1);
    lemma_find_from_skips(m, seq![q], a + 1);
    let end = find_from(m, seq![q], a + 1)->0;
    lemma_occurs_char(m, seq![q], end, end);
    assert forall|k: int| a + 1 <= k < end implies #[trigger] m[k] != q by {
        if m[k] == q {
            assert(m.subrange(k, k + 1) =~= seq![q]);
            assert(occurs_at(m, seq![q], k));
        }
    }
    assert(m.skip(end) =~= seq![q] + m.skip(end + 1));
    assert(m.take(a + 1) + level + m.skip(end) =~= m.take(a + 1) + level + seq![q] + m.skip(end + 1));
    (a + 1, end)
}

/// Where the manifest has neither a level value to update nor an element
/// to add it to, but has a closing `</assembly>`, setting the level inserts
/// a trust-info block requesting it right before the last `</assembly>` and
/// keeps every character of the manifest around it.
pub proof fn lemma_level_block_inserted(m: Seq<char>, level: Seq<char>) -> (p: int)
    requires
        update_level(m, level) is None,
        add_level(m, level) is None,
        m.len() > 0,
        rfind(m, ASSEMBLY_END@) is Some,
    ensures
        0 <= p <= m.len(),
        occurs_at(m, ASSEMBLY_END@, p),
        forall|q: int| p < q ==> !#[trigger] occurs_at(m, ASSEMBLY_END@, q),
        with_execution_level(m, level).take(p) == m.take(p),
        with_execution_level(m, level).skip(with_execution_level(m, level).len() - (m.len() - p))
            == m.skip(p),
        with_execution_level(m, level).len() == m.len() + trust_info(level).len(),
        unquoted(level) ==> holds_level(trust_info(level), level),
{
    lemma_fixed_texts();
    let n = ASSEMBLY_END@.len();
    lemma_rfind_from_found(m, ASSEMBLY_END@, m.len() - n);
    lemma_rfind_from_skips(m, ASSEMBLY_END@, m.len() - n);
    let p = rfind(m, ASSEMBLY_END@)->0;
    let r = with_execution_level(m, level);
    assert(r == m.take(p) + trust_info(level) + m.skip(p));
    assert(r.take(p) =~= m.take(p));
    assert(r.skip(r.len() - (m.len() - p)) =~= m.skip(p));
    if unquoted(level) {
        let e = Seq::<char>::empty();
        assert(e.take(0) + trust_info(level) + e.skip(0) =~= trust_info(level));
        lemma_block_element_inside(e, level, 0);
        lemma_block_level(e, level, 0, 148);
    }
    p
}

/// A backward search passes over no occurrence.
proof fn lemma_rfind_from_skips(h: Seq<char>, p: Seq<char>, k: int)
    ensures
        rfind_from(h, p, k) matches Some(i) ==> forall|j: int| i < j <= k ==> !occurs_at(h, p, j),
        rfind_from(h, p, k) is None ==> forall|j: int| 0 <= j <= k ==> !occurs_at(h, p, j),
    decreases k + 1,
{
    if k >= 0 && !occurs_at(h, p, k) {
        lemma_rfind_from_skips(h, p, k - 1);
    }
}

/// After the level is set, the attribute update finds it again and leaves
/// the manifest as it is.
proof fn lemma_level_slot(m: Seq<char>, level: Seq<char>)
    requires
        unquoted(level),
        level_values_quoted(m),
    ensures
        update_level(with_execution_level(m, level), level) == Some(with_execution_level(m, level)),
        holds_level(with_execution_level(m, level), level),
{
    lemma_fixed_texts();
    let el = LEVEL_ELEMENT@;
    if update_level(m, level) is Some {
        lemma_update_in_place(m, level);
    } else if find_from(m, el, 0) is Some {
        let e = find_from(m, el, 0)->0;
        lemma_find_from_found(m, el, 0);
        lemma_no_attribute_after_element(m, level, e);
        lemma_find_from_found(m, LEVEL_ATTRIBUTE@, e);
        assert(add_level(m, level) is Some);
        lemma_attribute_added(m, level, e);
    } else if m.len() > 0 && rfind(m, ASSEMBLY_END@) is Some {
        let p = rfind(m, ASSEMBLY_END@)->0;
        lemma_rfind_from_found(m, ASSEMBLY_END@, m.len() - ASSEMBLY_END@.len());
        assert(with_execution_level(m, level) == with_block_at(m, level, p));
        lemma_find_from_skips(m, el, 0);
        lemma_block_element_inside(m, level, p);
        lemma_block_level(m, level, p, p + 148);
    } else {
        let fresh = MANIFEST_HEADER@ + ASSEMBLY_END@;
        assert(with_block_at(fresh, level, 202) =~= MANIFEST_HEADER@ + trust_info(level) + ASSEMBLY_END@);
        assert forall|j: int| 0 <= j && j + 23 <= 202 implies !occurs_at(fresh, el, j) by {
            lemma_occurs_same(fresh, j, MANIFEST_HEADER@, j, el);
        }
        lemma_block_element_inside(fresh, level, 202);
        lemma_block_level(fresh, level, 202, 350);
    }
}

/// Setting the requested execution level a second time gives the manifest
/// back unchanged, where the level holds no quote and every `level=`
/// attribute of the manifest is followed by a closed quote.
pub proof fn lemma_execution_level_idempotent(m: Seq<char>, level: Seq<char>)
    requires
        unquoted(level),
        level_values_quoted(m),
    ensures
        with_execution_level(with_execution_level(m, level), level) == with_execution_level(m, level),
{
    lemma_level_slot(m, level);
}

/// After the requested execution level is set, the first `level=` attribute
/// after the first `requestedExecutionLevel` holds the level between quotes,
/// where the level holds no quote and every `level=` attribute of the
/// manifest is followed by a closed quote.
pub proof fn lemma_execution_level_held(m: Seq<char>, level: Seq<char>)
    requires
        unquoted(level),
        level_values_quoted(m),
    ensures
        holds_level(with_execution_level(m, level), level),
{
    lemma_level_slot(m, level);
}

/// What a forward search finds is an occurrence at or after its start.
proof fn lemma_find_from_found(h: Seq<char>, p: Seq<char>, k: int)
    ensures
        find_from(h, p, k) matches Some(i) ==> k <= i && occurs_at(h, p, i),
    decreases h.len() + 1 - k,
{
    if !(k < 0 || k + p.len() > h.len()) && !occurs_at(h, p, k) {
        lemma_find_from_found(h, p, k + 1);
    }
}

/// What a backward search finds is an occurrence at or before its start.
proof fn lemma_rfind_from_found(h: Seq<char>, p: Seq<char>, k: int)
    ensures
        rfind_from(h, p, k) matches Some(i) ==> i <= k && occurs_at(h, p, i),
    decreases k + 1,
{
    if k >= 0 && !occurs_at(h, p, k) {
        lemma_rfind_from_found(h, p, k - 1);
    }
}

/// Whether `p` occurs in `h` at `k`.
fn occurs_at_exec(h: &[char], p: &[char], k: usize) -> (r: bool)
    requires
        k + p@.len() <= h@.len(),
    ensures
        r == occurs_at(h@, p@, k as int),
{
    let mut j: usize = 0;
    let hl = h.len();
    while j < p.len()
        invariant
            hl == h@.len(),
            j <= p@.len(),
            k + p@.len() <= h@.len(),
            forall|t: int| 0 <= t < j ==> h@[k + t] == p@[t],
        decreases p.len() - j,
    {
        if h[k + j] != p[j] {
            assert(h@.subrange(k as int, k + p@.len())[j as int] != p@[j as int]);
            return false;
        }
        j = j + 1;
    }
    assert(h@.subrange(k as int, k + p@.len()) == p@);
    true
}

/// The first index at or after `k` where `p` occurs in `h`.
fn find_from_exec(h: &[char], p: &[char], k: usize) -> (r: Option<usize>)
    ensures
        match r {
            Some(i) => find_from(h@, p@, k as int) == Some(i as int),
            None => find_from(h@, p@, k as int) is None,
        },
        r matches Some(i) ==> k <= i && occurs_at(h@, p@, i as int),
{
    proof {
        lemma_find_from_found(h@, p@, k as int);
    }
    let mut i = k;
    while i <= h.len() && p.len() <= h.len() - i
        invariant
            k <= i,
            find_from(h@, p@, k as int) == find_from(h@, p@, i as int),
        decreases h.len() + 1 - i,
    {
        if occurs_at_exec(h, p, i) {
            return Some(i);
        }
        proof {
            if p@.len() == 0 {
                assert(h@.subrange(i as int, i as int) == p@);
            }
        }
        i = i + 1;
    }
    None
}

/// The last index where `p` occurs in `h`.
fn rfind_exec(h: &[char], p: &[char]) -> (r: Option<usize>)
    ensures
        match r {
            Some(i) => rfind(h@, p@) == Some(i as int),
            None => rfind(h@, p@) is None,
        },
        r matches Some(i) ==> occurs_at(h@, p@, i as int),
{
    proof {
        lemma_rfind_from_found(h@, p@, h@.len() - p@.len());
    }
    if p.len() > h.len() {
        return None;
    }
    let mut i = h.len() - p.len();
    loop
        invariant
            i + p@.len() <= h@.len(),
            rfind(h@, p@) == rfind_from(h@, p@, i as int),
        decreases i,
    {
        if occurs_at_exec(h, p, i) {
            return Some(i);
        }
        if i == 0 {
            assert(rfind_from(h@, p@, -1) is None);
            return None;
        }
        i = i - 1;
    }
}

/// Appends all of `src` to `out`.
fn extend_chars(out: &mut Vec<char>, src: &[char])
    ensures
        final(out)@ == old(out)@ + src@,
{
    let mut j: usize = 0;
    let ghost start = out@;
    while j < src.len()
        invariant
            j <= src@.len(),
            out@ == start + src@.take(j as int),
        decreases src.len() - j,
    {
        out.push(src[j]);
        j = j + 1;
        assert(out@ == start + src@.take(j as int));
    }
    assert(src@.take(src@.len() as int) == src@);
}

/// Appends `src[from..to]` to `out`.
fn copy_range(out: &mut Vec<char>, src: &[char], from: usize, to: usize)
    requires
        from <= to <= src@.len(),
    ensures
        final(out)@ == old(out)@ + src@.subrange(from as int, to as int),
{
    let ghost start = out@;
    let mut k: usize = from;
    while k < to
        invariant
            from <= k <= to,
            to <= src@.len(),
            out@ == start + src@.subrange(from as int, k as int),
        decreases to - k,
    {
        out.push(src[k]);
        k = k + 1;
        assert(out@ == start + src@.subrange(from as int, k as int));
    }
}

/// The attribute update of `with_execution_level`, on characters.
fn update_level_exec(m: &[char], level: &[char]) -> (r: Option<Vec<char>>)
    ensures
        match update_level(m@, level@) {
            Some(u) => r matches Some(v) && v@ == u,
            None => r is None,
        },
{
    let ml = m.len();
    let element = chars_of(LEVEL_ELEMENT);
    let attribute = chars_of(LEVEL_ATTRIBUTE);
    let e = match find_from_exec(m, element.as_slice(), 0) {
        Some(e) => e,
        None => return None,
    };
    let at = match find_from_exec(m, attribute.as_slice(), e) {
        Some(at) => at,
        None => return None,
    };
    let a = at + attribute.len();
    if a >= m.len() || (m[a] != '"' && m[a] != '\'') {
        return None;
    }
    let quote = m[a];
    let mut quote_seq: Vec<char> = Vec::new();
    quote_seq.push(quote);
    assert(quote_seq@ == seq![m@[a as int]]);
    let end = match find_from_exec(m, quote_seq.as_slice(), a + 1) {
        Some(end) => end,
        None => return None,
    };
    let mut out: Vec<char> = Vec::new();
    let mut j: usize = 0;
    while j <= a
        invariant
            j <= a + 1,
            a < m@.len(),
            out@ == m@.take(j as int),
        decreases a + 1 - j,
    {
        out.push(m[j]);
        j = j + 1;
        assert(out@ == m@.take(j as int));
    }
    extend_chars(&mut out, level);
    out.push(quote);
    let mut k: usize = end + 1;
    let ghost before = out@;
    assert(m@.skip(k as int).take(0) == Seq::<char>::empty());
    while k < m.len()
        invariant
            end + 1 <= k <= m@.len(),
            out@ == before + m@.skip(end + 1).take(k - end - 1),
        decreases m.len() - k,
    {
        out.push(m[k]);
        k = k + 1;
        assert(out@ == before + m@.skip(end + 1).take(k - end - 1));
    }
    assert(m@.skip(end + 1).take(k - end - 1) == m@.skip(end + 1));
    Some(out)
}

/// Sets the requested execution level of the manifest text `manifest` to
/// `level`: updates the existing attribute in place; else, where the element
/// is present without a `level` attribute, adds one after its name; else
/// inserts a trust-info block before the last `</assembly>` of a non-empty
/// manifest; else returns a new minimal manifest.
pub fn set_requested_execution_level(manifest: &str, level: &str) -> (r: String)
    ensures
        r@ == with_execution_level(manifest@, level@),
{
    let m = chars_of(manifest);
    let ml = m.len();
    let lv = chars_of(level);
    if let Some(u) = update_level_exec(m.as_slice(), lv.as_slice()) {
        return string_from_chars(u.as_slice());
    }
    let element = chars_of(LEVEL_ELEMENT);
    let attribute = chars_of(LEVEL_ATTRIBUTE);
    if let Some(e) = find_from_exec(m.as_slice(), element.as_slice(), 0) {
        if find_from_exec(m.as_slice(), attribute.as_slice(), e).is_none() {
            let c = e + element.len();
            let mut out: Vec<char> = Vec::new();
            copy_range(&mut out, m.as_slice(), 0, c);
            out.push(' ');
            extend_chars(&mut out, attribute.as_slice());
            out.push('"');
            extend_chars(&mut out, lv.as_slice());
            out.push('"');
            copy_range(&mut out, m.as_slice(), c, m.len());
            assert(m@.subrange(0, c as int) == m@.take(c as int));
            assert(m@.subrange(c as int, m@.len() as int) == m@.skip(c as int));
            assert(out@ == m@.take(c as int) + level_attribute_text(lv@) + m@.skip(c as int));
            return string_from_chars(out.as_slice());
        }
    }
    let prefix = chars_of(TRUST_INFO_PREFIX);
    let suffix = chars_of(TRUST_INFO_SUFFIX);
    let end_tag = chars_of(ASSEMBLY_END);
    let mut out: Vec<char> = Vec::new();
    if m.len() > 0 {
        if let Some(p) = rfind_exec(m.as_slice(), end_tag.as_slice()) {
            let mut j: usize = 0;
            while j < p
                invariant
                    j <= p,
                    p <= m@.len(),
                    out@ == m@.take(j as int),
                decreases p - j,
            {
                out.push(m[j]);
                j = j + 1;
                assert(out@ == m@.take(j as int));
            }
            extend_chars(&mut out, prefix.as_slice());
            extend_chars(&mut out, lv.as_slice());
            extend_chars(&mut out, suffix.as_slice());
            let ghost before = out@;
            let mut k: usize = p;
            assert(m@.skip(p as int).take(0) == Seq::<char>::empty());
            while k < m.len()
                invariant
                    p <= k <= m@.len(),
                    out@ == before + m@.skip(p as int).take(k - p),
                decreases m.len() - k,
            {
                out.push(m[k]);
                k = k + 1;
                assert(out@ == before + m@.skip(p as int).take(k - p));
            }
            assert(m@.skip(p as int).take(k - p) == m@.skip(p as int));
            assert(out@ == m@.take(p as int) + trust_info(lv@) + m@.skip(p as int));
            return string_from_chars(out.as_slice());
        }
    }
    let header = chars_of(MANIFEST_HEADER);
    extend_chars(&mut out, header.as_slice());
    extend_chars(&mut out, prefix.as_slice());
    extend_chars(&mut out, lv.as_slice());
    extend_chars(&mut out, suffix.as_slice());
    extend_chars(&mut out, end_tag.as_slice());
    assert(out@ == MANIFEST_HEADER@ + trust_info(lv@) + ASSEMBLY_END@);
    string_from_chars(out.as_slice())
}

} // verus!
