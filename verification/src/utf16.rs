//! UTF-16 encoding and decoding of Unicode text, as used by the string
//! resources of portable executables.
use vstd::prelude::*;
use crate::text::{chars_of, push_char};

verus! {

/// The UTF-16 code units of one character.
pub open spec fn char_units(c: char) -> Seq<u16> {
    let v = c as u32;
    if v < 0x10000 {
        seq![v as u16]
    } else {
        let w = v - 0x10000;
        seq![(0xD800 + w / 0x400) as u16, (0xDC00 + w % 0x400) as u16]
    }
}

/// The UTF-16 encoding of a character sequence.
pub open spec fn encode_utf16(s: Seq<char>) -> Seq<u16>
    decreases s.len(),
{
    if s.len() == 0 {
        Seq::empty()
    } else {
        char_units(s[0]) + encode_utf16(s.drop_first())
    }
}

/// A high (leading) surrogate code unit.
pub open spec fn is_high_surrogate(u: u16) -> bool {
    0xD800 <= u <= 0xDBFF
}

/// A low (trailing) surrogate code unit.
pub open spec fn is_low_surrogate(u: u16) -> bool {
    0xDC00 <= u <= 0xDFFF
}

/// The scalar value that a surrogate pair stands for.
pub open spec fn pair_value(hi: u16, lo: u16) -> int {
    0x10000 + (hi - 0xD800) * 0x400 + (lo - 0xDC00)
}

/// Decoding of UTF-16 code units: `None` where a surrogate is unpaired.
pub open spec fn decode_utf16(u: Seq<u16>) -> Option<Seq<char>>
    decreases u.len(),
{
    if u.len() == 0 {
        Some(Seq::empty())
    } else if !is_high_surrogate(u[0]) && !is_low_surrogate(u[0]) {
        match decode_utf16(u.drop_first()) {
            Some(r) => Some(seq![u[0] as char] + r),
            None => None,
        }
    } else if is_high_surrogate(u[0]) && u.len() >= 2 && is_low_surrogate(u[1]) {
        match decode_utf16(u.subrange(2, u.len() as int)) {
            Some(r) => Some(seq![pair_value(u[0], u[1]) as char] + r),
            None => None,
        }
    } else {
        None
    }
}

/// Decoding the units of one character in front of any units gives that
/// character in front of what the rest decodes to.
proof fn lemma_decode_char_units(c: char, rest: Seq<u16>)
    ensures
        decode_utf16(char_units(c) + rest) == match decode_utf16(rest) {
            Some(r) => Some(seq![c] + r),
            None => None::<Seq<char>>,
        },
{
    let v = c as u32;
    vstd::utf8::char_is_scalar(c);
    let u = char_units(c) + rest;
    if v < 0x10000 {
        assert(u.drop_first() == rest);
        vstd::utf8::char_u32_cast(c, v);
    } else {
        let w = v - 0x10000;
        assert(w / 0x400 * 0x400 + w % 0x400 == w) by (nonlinear_arith);
        assert(0 <= w / 0x400 <= 0x3FF) by (nonlinear_arith)
            requires 0 <= w <= 0xFFFFF;
        assert(u.subrange(2, u.len() as int) == rest);
        assert(pair_value(u[0], u[1]) == v);
        vstd::utf8::char_u32_cast(c, v);
    }
}

/// Decoding undoes encoding: every string survives a round trip through
/// UTF-16.
pub proof fn lemma_utf16_round_trip(s: Seq<char>)
    ensures
        decode_utf16(encode_utf16(s)) == Some(s),
    decreases s.len(),
{
    if s.len() > 0 {
        lemma_utf16_round_trip(s.drop_first());
        lemma_decode_char_units(s[0], encode_utf16(s.drop_first()));
        assert(seq![s[0]] + s.drop_first() == s);
    }
}

/// A character below U+10000 is stored as the one code unit equal to its
/// scalar value: a string of such characters encodes unit for character.
pub proof fn lemma_encode_basic_plane(s: Seq<char>)
    requires
        forall|i: int| 0 <= i < s.len() ==> (#[trigger] s[i] as u32) < 0x10000,
    ensures
        encode_utf16(s).len() == s.len(),
        forall|i: int| 0 <= i < s.len() ==> #[trigger] encode_utf16(s)[i] == (s[i] as u32) as u16,
    decreases s.len(),
{
    if s.len() > 0 {
        let rest = s.drop_first();
        assert forall|i: int| 0 <= i < rest.len() implies (#[trigger] rest[i] as u32) < 0x10000 by {
            assert(rest[i] == s[i + 1]);
        }
        lemma_encode_basic_plane(rest);
        assert forall|i: int| 0 <= i < s.len() implies #[trigger] encode_utf16(s)[i] == (s[i] as u32) as u16 by {
            if i > 0 {
                assert(encode_utf16(s)[i] == encode_utf16(rest)[i - 1]);
                assert(rest[i - 1] == s[i]);
            }
        }
    }
}

/// A character from U+10000 on is stored as a high surrogate followed by a
/// low surrogate, which together carry its scalar value.
pub proof fn lemma_encode_supplementary(c: char)
    requires
        (c as u32) >= 0x10000,
    ensures
        encode_utf16(seq![c]).len() == 2,
        0xD800 <= encode_utf16(seq![c])[0] <= 0xDBFF,
        0xDC00 <= encode_utf16(seq![c])[1] <= 0xDFFF,
        0x10000 + (encode_utf16(seq![c])[0] - 0xD800) * 0x400 + (encode_utf16(seq![c])[1] - 0xDC00)
            == c as u32,
{
    vstd::utf8::char_is_scalar(c);
    let v = c as u32;
    let w = v - 0x10000;
    assert(w / 0x400 * 0x400 + w % 0x400 == w) by (nonlinear_arith);
    assert(0 <= w / 0x400 <= 0x3FF) by (nonlinear_arith)
        requires 0 <= w <= 0xFFFFF;
    assert(seq![c].drop_first() == Seq::<char>::empty());
    assert(encode_utf16(Seq::<char>::empty()) == Seq::<u16>::empty());
    assert(seq![c][0] == c);
    assert(encode_utf16(seq![c]) == char_units(c) + encode_utf16(seq![c].drop_first()));
    assert(encode_utf16(seq![c]) == char_units(c) + Seq::<u16>::empty());
    assert(char_units(c) + Seq::<u16>::empty() == char_units(c));
}

/// Code units outside the surrogate range decode one for one, each to the
/// character whose scalar value it is.
pub proof fn lemma_decode_basic_plane(u: Seq<u16>)
    requires
        forall|i: int| 0 <= i < u.len() ==> #[trigger] u[i] < 0xD800 || u[i] > 0xDFFF,
    ensures
        decode_utf16(u) matches Some(s) && s.len() == u.len() && forall|i: int|
            0 <= i < u.len() ==> #[trigger] s[i] == u[i] as char,
    decreases u.len(),
{
    if u.len() > 0 {
        let rest = u.drop_first();
        assert forall|i: int| 0 <= i < rest.len() implies #[trigger] rest[i] < 0xD800 || rest[i] > 0xDFFF by {
            assert(rest[i] == u[i + 1]);
        }
        lemma_decode_basic_plane(rest);
        assert(u[0] < 0xD800 || u[0] > 0xDFFF);
        let r = decode_utf16(rest)->0;
        let s = seq![u[0] as char] + r;
        assert(decode_utf16(u) == Some(s));
        assert forall|i: int| 0 <= i < u.len() implies #[trigger] s[i] == u[i] as char by {
            if i > 0 {
                assert(s[i] == r[i - 1]);
                assert(rest[i - 1] == u[i]);
            }
        }
    }
}

/// Encodes one character into the code units it takes.
fn encode_char(c: char, out: &mut Vec<u16>)
    ensures
        final(out)@ == old(out)@ + char_units(c),
{
    let v = c as u32;
    if v < 0x10000 {
        out.push(v as u16);
    } else {
        let w = v - 0x10000;
        out.push((0xD800 + w / 0x400) as u16);
        out.push((0xDC00 + w % 0x400) as u16);
    }
}

/// The UTF-16 code units of a string.
pub fn str_to_utf16(s: &str) -> (r: Vec<u16>)
    ensures
        r@ == encode_utf16(s@),
{
    let cs = chars_of(s);
    let mut out: Vec<u16> = Vec::new();
    let mut i: usize = 0;
    assert(cs@.skip(0) == cs@);
    assert(out@ + encode_utf16(cs@) == encode_utf16(cs@));
    while i < cs.len()
        invariant
            i <= cs.len(),
            cs@ == s@,
            out@ + encode_utf16(cs@.skip(i as int)) == encode_utf16(cs@),
        decreases cs.len() - i,
    {
        assert(cs@.skip(i as int).drop_first() == cs@.skip(i + 1));
        encode_char(cs[i], &mut out);
        i = i + 1;
    }
    assert(cs@.skip(i as int) == Seq::<char>::empty());
    out
}

/// `char::from_u32`: the character with the given scalar value, if any.
#[verifier::external_body]
fn char_from_u32(v: u32) -> (r: Option<char>)
    ensures
        r is Some <==> (v <= 0xD7FF || (0xE000 <= v && v <= 0x10FFFF)),
        r matches Some(c) ==> c as u32 == v,
{
    char::from_u32(v)
}

/// Decodes UTF-16 code units into a string; `None` where a surrogate is unpaired.
pub fn string_from_utf16(u: &[u16]) -> (r: Option<String>)
    ensures
        match r {
            Some(s) => decode_utf16(u@) == Some(s@),
            None => decode_utf16(u@) is None,
        },
{
    let mut out = String::new();
    let mut i: usize = 0;
    assert(u@.skip(0) == u@);
    proof {
        if let Some(rest) = decode_utf16(u@) {
            assert(out@ + rest == rest);
        }
    }
    while i < u.len()
        invariant
            i <= u.len(),
            match decode_utf16(u@.skip(i as int)) {
                Some(rest) => decode_utf16(u@) == Some(out@ + rest),
                None => decode_utf16(u@) is None,
            },
        decreases u.len() - i,
    {
        let ghost tail = u@.skip(i as int);
        let a = u[i];
        if a < 0xD800 || a > 0xDFFF {
            assert(tail.drop_first() == u@.skip(i + 1));
            // a unit outside the surrogate range is a scalar value
            let c = match char_from_u32(a as u32) {
                Some(c) => c,
                None => {
                    assert(false);
                    return None;
                },
            };
            proof {
                vstd::utf8::char_u32_cast(c, a as u32);
                assert(c == a as char);
            }
            let ghost before = out@;
            push_char(&mut out, c);
            i = i + 1;
            proof {
                if let Some(rest) = decode_utf16(u@.skip(i as int)) {
                    assert(before + (seq![c] + rest) == out@ + rest);
                }
            }
        } else if a <= 0xDBFF && i + 1 < u.len() && 0xDC00 <= u[i + 1] && u[i + 1] <= 0xDFFF {
            let b = u[i + 1];
            assert(tail.subrange(2, tail.len() as int) == u@.skip(i + 2));
            let v: u32 = 0x10000 + (a as u32 - 0xD800) * 0x400 + (b as u32 - 0xDC00);
            // a surrogate pair stands for a scalar value above 0xFFFF
            let c = match char_from_u32(v) {
                Some(c) => c,
                None => {
                    assert(false);
                    return None;
                },
            };
            proof {
                vstd::utf8::char_u32_cast(c, v);
                assert(c == pair_value(a, b) as char);
            }
            let ghost before = out@;
            push_char(&mut out, c);
            i = i + 2;
            proof {
                if let Some(rest) = decode_utf16(u@.skip(i as int)) {
                    assert(before + (seq![c] + rest) == out@ + rest);
                }
            }
        } else {
            return None;
        }
    }
    assert(u@.skip(i as int) == Seq::<u16>::empty());
    Some(out)
}

} // verus!
