//! Version numbers written as up to four dot-separated 16-bit components
//! (`major.minor.patch.build`), packed into the two 32-bit halves of a
//! fixed file-info version.
use vstd::prelude::*;
use crate::decimal::{
    all_digits, decimal_text, digits_value, is_digit, lemma_decimal_text_no_leading_zero,
    lemma_decimal_text_value, lemma_parse_decimal_text, parse_unsigned,
    parse_unsigned_chars, push_decimal, unsigned_digits,
};
use crate::text::{chars_of, string_from_chars};

verus! {

/// A 64-bit version as the fixed file info stores it: `major` holds the
/// first two components (high and low 16 bits), `minor` the last two.
#[derive(Clone, Copy, Debug, PartialEq, Eq, Structural)]
pub struct VersionU32 {
    pub major: u32,
    pub minor: u32,
}

/// The component that could not be read as a 16-bit number.
#[derive(Debug)]
pub struct InvalidComponent {
    pub component: String,
}

/// The pieces of `s` between dots, scanning from the left: a dot starts a
/// new piece. A string without dots is one piece; the empty string is one
/// empty piece.
pub open spec fn split_dots(s: Seq<char>) -> Seq<Seq<char>>
    decreases s.len(),
{
    if s.len() == 0 {
        seq![Seq::<char>::empty()]
    } else {
        let p = split_dots(s.drop_last());
        if s.last() == '.' {
            p.push(Seq::<char>::empty())
        } else {
            p.update(p.len() - 1, p.last().push(s.last()))
        }
    }
}

/// Component `i` of a version: 0 when absent, an error carrying the text
/// when it is not a number from 0 to 65535.
pub open spec fn version_component(parts: Seq<Seq<char>>, i: int) -> Result<int, Seq<char>> {
    if i < parts.len() {
        match parse_unsigned(parts[i], 0xFFFF) {
            Some(v) => Ok(v),
            None => Err(parts[i]),
        }
    } else {
        Ok(0)
    }
}

/// The version written in `s`: the first four components packed two by two,
/// further components ignored; the first invalid component is the error.
pub open spec fn parse_version_spec(s: Seq<char>) -> Result<(int, int), Seq<char>> {
    let parts = split_dots(s);
    match version_component(parts, 0) {
        Err(e) => Err(e),
        Ok(a) => match version_component(parts, 1) {
            Err(e) => Err(e),
            Ok(b) => match version_component(parts, 2) {
                Err(e) => Err(e),
                Ok(c) => match version_component(parts, 3) {
                    Err(e) => Err(e),
                    Ok(d) => Ok((a * 0x10000 + b, c * 0x10000 + d)),
                },
            },
        },
    }
}

/// The pieces of `s` between dots.
fn split_on_dots(s: &[char]) -> (r: Vec<Vec<char>>)
    ensures
        r@.map_values(|p: Vec<char>| p@) == split_dots(s@),
{
    let mut done: Vec<Vec<char>> = Vec::new();
    let mut cur: Vec<char> = Vec::new();
    let mut i: usize = 0;
    assert(s@.take(0) == Seq::<char>::empty());
    assert(done@.map_values(|p: Vec<char>| p@).push(cur@) == split_dots(s@.take(0)));
    while i < s.len()
        invariant
            i <= s.len(),
            done@.map_values(|p: Vec<char>| p@).push(cur@) == split_dots(s@.take(i as int)),
        decreases s.len() - i,
    {
        let c = s[i];
        let ghost prev = split_dots(s@.take(i as int));
        assert(s@.take(i + 1).drop_last() == s@.take(i as int));
        assert(s@.take(i + 1).last() == c);
        if c == '.' {
            let piece = cur;
            done.push(piece);
            cur = Vec::new();
            assert(done@.map_values(|p: Vec<char>| p@) == prev);
        } else {
            let ghost old_done = done@.map_values(|p: Vec<char>| p@);
            cur.push(c);
            assert(done@.map_values(|p: Vec<char>| p@).push(cur@) == prev.update(
                prev.len() - 1,
                prev.last().push(c),
            ));
        }
        i = i + 1;
    }
    assert(s@.take(s@.len() as int) == s@);
    done.push(cur);
    done
}

/// Reads component `i` of a version.
fn component(parts: &Vec<Vec<char>>, i: usize) -> (r: Result<u16, InvalidComponent>)
    ensures
        match version_component(parts@.map_values(|p: Vec<char>| p@), i as int) {
            Ok(v) => r matches Ok(x) && x == v,
            Err(e) => r matches Err(err) && err.component@ == e,
        },
{
    if i < parts.len() {
        let ghost views = parts@.map_values(|p: Vec<char>| p@);
        assert(views[i as int] == parts[i as int]@);
        match parse_unsigned_chars(parts[i].as_slice(), 0xFFFF) {
            Some(v) => Ok(v as u16),
            None => Err(InvalidComponent { component: string_from_chars(parts[i].as_slice()) }),
        }
    } else {
        Ok(0)
    }
}

/// Reads a version such as `1.2.3.4`: up to four dot-separated numbers from
/// 0 to 65535, missing ones counting as 0 and ones past the fourth ignored.
pub fn parse_version(s: &str) -> (r: Result<VersionU32, InvalidComponent>)
    ensures
        match parse_version_spec(s@) {
            Ok((major, minor)) => r matches Ok(v) && v.major == major && v.minor == minor,
            Err(text) => r matches Err(e) && e.component@ == text,
        },
{
    let cs = chars_of(s);
    let parts = split_on_dots(cs.as_slice());
    let a = match component(&parts, 0) {
        Ok(x) => x,
        Err(e) => return Err(e),
    };
    let b = match component(&parts, 1) {
        Ok(x) => x,
        Err(e) => return Err(e),
    };
    let c = match component(&parts, 2) {
        Ok(x) => x,
        Err(e) => return Err(e),
    };
    let d = match component(&parts, 3) {
        Ok(x) => x,
        Err(e) => return Err(e),
    };
    Ok(VersionU32 { major: a as u32 * 0x10000 + b as u32, minor: c as u32 * 0x10000 + d as u32 })
}

/// The text of a version: its four 16-bit components in decimal, joined
/// by dots (`1.2.3.4`).
pub open spec fn version_text(major: u32, minor: u32) -> Seq<char> {
    decimal_text((major / 0x10000) as nat) + seq!['.'] + decimal_text((major % 0x10000) as nat)
        + seq!['.'] + decimal_text((minor / 0x10000) as nat) + seq!['.'] + decimal_text(
        (minor % 0x10000) as nat,
    )
}

/// Writes a version as its four decimal components joined by dots.
pub fn format_version(v: VersionU32) -> (r: String)
    ensures
        r@ == version_text(v.major, v.minor),
{
    let mut out: Vec<char> = Vec::new();
    push_decimal(&mut out, v.major / 0x10000);
    out.push('.');
    push_decimal(&mut out, v.major % 0x10000);
    out.push('.');
    push_decimal(&mut out, v.minor / 0x10000);
    out.push('.');
    push_decimal(&mut out, v.minor % 0x10000);
    string_from_chars(out.as_slice())
}

/// Splitting always gives at least one piece.
proof fn lemma_split_nonempty(s: Seq<char>)
    ensures
        split_dots(s).len() >= 1,
    decreases s.len(),
{
    if s.len() > 0 {
        lemma_split_nonempty(s.drop_last());
    }
}

/// A dot at the end starts a new, empty piece.
proof fn lemma_split_dot(x: Seq<char>)
    ensures
        split_dots(x.push('.')) == split_dots(x).push(Seq::<char>::empty()),
{
    assert(x.push('.').drop_last() == x);
}

/// Text without dots extends the last piece.
proof fn lemma_split_no_dots(x: Seq<char>, t: Seq<char>)
    requires
        forall|k: int| 0 <= k < t.len() ==> #[trigger] t[k] != '.',
    ensures
        split_dots(x + t) == split_dots(x).update(
            split_dots(x).len() - 1,
            split_dots(x).last() + t,
        ),
    decreases t.len(),
{
    lemma_split_nonempty(x);
    if t.len() == 0 {
        assert(x + t == x);
        assert(split_dots(x).last() + t == split_dots(x).last());
        assert(split_dots(x).update(split_dots(x).len() - 1, split_dots(x).last())
            == split_dots(x));
    } else {
        let t1 = t.drop_last();
        lemma_split_no_dots(x, t1);
        assert((x + t).drop_last() == x + t1);
        assert((x + t).last() == t.last());
        assert(t.last() != '.');
        assert(split_dots(x).last() + t1.push(t.last()) == split_dots(x).last() + t);
    }
}

/// Decimal text holds no dot.
proof fn lemma_decimal_no_dots(n: nat)
    ensures
        forall|k: int| 0 <= k < decimal_text(n).len() ==> #[trigger] decimal_text(n)[k] != '.',
{
    lemma_decimal_text_value(n);
    assert forall|k: int| 0 <= k < decimal_text(n).len() implies #[trigger] decimal_text(n)[k]
        != '.' by {
        assert(is_digit(decimal_text(n)[k]));
    }
}

/// The text of a version reads back as that version.
pub proof fn lemma_version_text_round_trip(major: u32, minor: u32)
    ensures
        parse_version_spec(version_text(major, minor)) == Ok::<(int, int), Seq<char>>(
            (major as int, minor as int),
        ),
{
    let a = decimal_text((major / 0x10000) as nat);
    let b = decimal_text((major % 0x10000) as nat);
    let c = decimal_text((minor / 0x10000) as nat);
    let d = decimal_text((minor % 0x10000) as nat);
    lemma_decimal_no_dots((major / 0x10000) as nat);
    lemma_decimal_no_dots((major % 0x10000) as nat);
    lemma_decimal_no_dots((minor / 0x10000) as nat);
    lemma_decimal_no_dots((minor % 0x10000) as nat);
    let e = Seq::<char>::empty();
    assert(split_dots(e) == seq![e]);
    lemma_split_no_dots(e, a);
    assert(e + a == a);
    assert(seq![e].update(0, e + a) == seq![a]);
    let s1 = a.push('.');
    lemma_split_dot(a);
    lemma_split_no_dots(s1, b);
    let s2 = (s1 + b).push('.');
    lemma_split_dot(s1 + b);
    lemma_split_no_dots(s2, c);
    let s3 = (s2 + c).push('.');
    lemma_split_dot(s2 + c);
    lemma_split_no_dots(s3, d);
    assert(s3 + d == version_text(major, minor));
    let parts = split_dots(version_text(major, minor));
    assert(parts == seq![a, b, c, d]);
    lemma_parse_decimal_text((major / 0x10000) as nat, 0xFFFF);
    lemma_parse_decimal_text((major % 0x10000) as nat, 0xFFFF);
    lemma_parse_decimal_text((minor / 0x10000) as nat, 0xFFFF);
    lemma_parse_decimal_text((minor % 0x10000) as nat, 0xFFFF);
    assert((major / 0x10000) * 0x10000 + major % 0x10000 == major) by (nonlinear_arith);
    assert((minor / 0x10000) * 0x10000 + minor % 0x10000 == minor) by (nonlinear_arith);
}

/// A missing trailing component counts as 0: appending `.0` to a version
/// written with fewer than four components leaves the version unchanged.
pub proof fn lemma_zero_component_appended(s: Seq<char>)
    requires
        split_dots(s).len() < 4,
    ensures
        parse_version_spec(s.push('.').push('0')) == parse_version_spec(s),
{
    let parts = split_dots(s);
    let zero = seq!['0'];
    lemma_split_nonempty(s);
    lemma_split_dot(s);
    lemma_split_no_dots(s.push('.'), zero);
    assert(s.push('.') + zero == s.push('.').push('0'));
    let parts2 = split_dots(s.push('.').push('0'));
    assert(Seq::<char>::empty() + zero == zero);
    assert(parts2 == parts.push(zero));
    assert(unsigned_digits(zero) == zero);
    assert(zero.drop_last() == Seq::<char>::empty());
    assert(digits_value(Seq::<char>::empty()) == 0);
    assert(zero.last() == '0');
    assert(digits_value(zero) == digits_value(zero.drop_last()) * 10 + (zero.last() as int - '0' as int));
    assert(digits_value(zero) == 0);
    assert(parse_unsigned(zero, 0xFFFF) == Some(0int));
    assert forall|i: int| 0 <= i < 4 implies #[trigger] version_component(parts2, i)
        == version_component(parts, i) by {
        if i < parts.len() {
            assert(parts2[i] == parts[i]);
        }
    }
    assert(version_component(parts2, 0) == version_component(parts, 0));
    assert(version_component(parts2, 1) == version_component(parts, 1));
    assert(version_component(parts2, 2) == version_component(parts, 2));
    assert(version_component(parts2, 3) == version_component(parts, 3));
}

/// The text of a version is exactly its four components, major first, each
/// as a plain decimal numeral (digits only, no leading zero), joined by
/// dots.
pub proof fn lemma_version_text_components(major: u32, minor: u32)
    ensures
        ({
            let parts = split_dots(version_text(major, minor));
            let values = seq![
                (major / 0x10000) as int,
                (major % 0x10000) as int,
                (minor / 0x10000) as int,
                (minor % 0x10000) as int,
            ];
            &&& parts.len() == 4
            &&& forall|i: int| 0 <= i < 4 ==> {
                &&& (#[trigger] parts[i]).len() > 0
                &&& all_digits(parts[i])
                &&& digits_value(parts[i]) == values[i]
                &&& (parts[i][0] == '0' ==> parts[i].len() == 1)
            }
        }),
{
    let ns = seq![
        (major / 0x10000) as nat,
        (major % 0x10000) as nat,
        (minor / 0x10000) as nat,
        (minor % 0x10000) as nat,
    ];
    let a = decimal_text(ns[0]);
    let b = decimal_text(ns[1]);
    let c = decimal_text(ns[2]);
    let d = decimal_text(ns[3]);
    lemma_decimal_no_dots(ns[0]);
    lemma_decimal_no_dots(ns[1]);
    lemma_decimal_no_dots(ns[2]);
    lemma_decimal_no_dots(ns[3]);
    let e = Seq::<char>::empty();
    assert(split_dots(e) == seq![e]);
    lemma_split_no_dots(e, a);
    assert(e + a == a);
    assert(seq![e].update(0, e + a) == seq![a]);
    let s1 = a.push('.');
    lemma_split_dot(a);
    lemma_split_no_dots(s1, b);
    let s2 = (s1 + b).push('.');
    lemma_split_dot(s1 + b);
    lemma_split_no_dots(s2, c);
    let s3 = (s2 + c).push('.');
    lemma_split_dot(s2 + c);
    lemma_split_no_dots(s3, d);
    assert(s3 + d == version_text(major, minor));
    let parts = split_dots(version_text(major, minor));
    assert(parts == seq![a, b, c, d]);
    assert forall|i: int| 0 <= i < 4 implies {
        &&& (#[trigger] parts[i]).len() > 0
        &&& all_digits(parts[i])
        &&& digits_value(parts[i]) == ns[i]
        &&& (parts[i][0] == '0' ==> parts[i].len() == 1)
    } by {
        assert(parts[i] == decimal_text(ns[i]));
        lemma_decimal_text_value(ns[i]);
        lemma_decimal_text_no_leading_zero(ns[i]);
    }
}

} // verus!
