//! Decimal numbers as `str::parse` reads them for unsigned integers: an
//! optional `+` followed by one or more ASCII digits, whose value must not
//! exceed the bound of the target type.
use vstd::prelude::*;

verus! {

/// An ASCII decimal digit.
pub open spec fn is_digit(c: char) -> bool {
    '0' <= c <= '9'
}

/// Every character is an ASCII decimal digit.
pub open spec fn all_digits(ds: Seq<char>) -> bool {
    forall|k: int| 0 <= k < ds.len() ==> is_digit(#[trigger] ds[k])
}

/// The value of a run of decimal digits.
pub open spec fn digits_value(ds: Seq<char>) -> int
    decreases ds.len(),
{
    if ds.len() == 0 {
        0
    } else {
        digits_value(ds.drop_last()) * 10 + (ds.last() as int - '0' as int)
    }
}

/// The digits of `t`: `t` without a leading `+`.
pub open spec fn unsigned_digits(t: Seq<char>) -> Seq<char> {
    if t.len() > 0 && t[0] == '+' {
        t.drop_first()
    } else {
        t
    }
}

/// The unsigned number written in `t`, if it is one and does not exceed `max`.
pub open spec fn parse_unsigned(t: Seq<char>, max: int) -> Option<int> {
    let ds = unsigned_digits(t);
    if ds.len() > 0 && all_digits(ds) && digits_value(ds) <= max {
        Some(digits_value(ds))
    } else {
        None
    }
}

/// A longer run of digits is worth at least as much as its prefix.
proof fn lemma_digits_value_grows(ds: Seq<char>, j: int)
    requires
        0 <= j <= ds.len(),
        all_digits(ds),
    ensures
        digits_value(ds.take(j)) <= digits_value(ds),
        0 <= digits_value(ds),
    decreases ds.len(),
{
    if ds.len() > 0 {
        assert(all_digits(ds.drop_last())) by {
            assert forall|k: int| 0 <= k < ds.drop_last().len() implies is_digit(
                #[trigger] ds.drop_last()[k],
            ) by {
                assert(ds.drop_last()[k] == ds[k]);
            }
        }
        assert(is_digit(ds[ds.len() - 1]));
        if j == ds.len() {
            assert(ds.take(j) == ds);
            lemma_digits_value_grows(ds.drop_last(), 0);
        } else {
            assert(ds.take(j) == ds.drop_last().take(j));
            lemma_digits_value_grows(ds.drop_last(), j);
        }
    }
}

/// Reads an unsigned decimal number not above `max`, as `str::parse` does
/// for an unsigned integer type whose largest value is `max`.
pub fn parse_unsigned_chars(t: &[char], max: u32) -> (r: Option<u32>)
    ensures
        match r {
            Some(v) => parse_unsigned(t@, max as int) == Some(v as int),
            None => parse_unsigned(t@, max as int) is None,
        },
{
    let start: usize = if t.len() > 0 && t[0] == '+' {
        1
    } else {
        0
    };
    let ghost ds = unsigned_digits(t@);
    assert(ds == t@.skip(start as int));
    if start >= t.len() {
        return None;
    }
    let mut acc: u64 = 0;
    let mut j: usize = start;
    assert(ds.take(0) == Seq::<char>::empty());
    while j < t.len()
        invariant
            start <= j <= t.len(),
            ds == t@.skip(start as int),
            ds == unsigned_digits(t@),
            acc <= max,
            acc == digits_value(ds.take(j - start)),
            all_digits(ds.take(j - start)),
        decreases t.len() - j,
    {
        let c = t[j];
        if c < '0' || c > '9' {
            assert(ds[j - start] == c);
            assert(!all_digits(ds));
            assert(parse_unsigned(t@, max as int) is None);
            return None;
        }
        let digit = (c as u32 - '0' as u32) as u64;
        assert(ds.take(j - start + 1).drop_last() == ds.take(j - start));
        assert(ds.take(j - start + 1).last() == c);
        let next = acc * 10 + digit;
        assert(all_digits(ds.take(j - start + 1))) by {
            assert forall|k: int| 0 <= k < ds.take(j - start + 1).len() implies is_digit(
                #[trigger] ds.take(j - start + 1)[k],
            ) by {
                if k < j - start {
                    assert(ds.take(j - start + 1)[k] == ds.take(j - start)[k]);
                }
            }
        }
        if next > max as u64 {
            proof {
                if all_digits(ds) {
                    lemma_digits_value_grows(ds, j - start + 1);
                }
                assert(parse_unsigned(t@, max as int) is None);
            }
            return None;
        }
        acc = next;
        j = j + 1;
    }
    assert(ds.take(j - start) == ds);
    Some(acc as u32)
}

/// The decimal digit character for `d`, from 0 to 9.
pub open spec fn digit_char(d: int) -> char {
    ('0' as int + d) as char
}

/// The decimal text of `n`, without leading zeros (`0` for zero).
pub open spec fn decimal_text(n: nat) -> Seq<char>
    decreases n,
{
    if n < 10 {
        seq![digit_char(n as int)]
    } else {
        decimal_text(n / 10).push(digit_char(n as int % 10))
    }
}

/// Appends the decimal text of `n`.
pub fn push_decimal(out: &mut Vec<char>, n: u32)
    ensures
        final(out)@ == old(out)@ + decimal_text(n as nat),
    decreases n,
{
    if n >= 10 {
        push_decimal(out, n / 10);
    }
    let d = (n % 10) as u8;
    let c = (48u8 + d) as char;
    assert(c == digit_char((n % 10) as int));
    out.push(c);
}

/// Decimal text reads back as its number.
pub proof fn lemma_decimal_text_value(n: nat)
    ensures
        decimal_text(n).len() > 0,
        all_digits(decimal_text(n)),
        digits_value(decimal_text(n)) == n,
        decimal_text(n)[0] != '+',
    decreases n,
{
    let t = decimal_text(n);
    if n >= 10 {
        lemma_decimal_text_value(n / 10);
        let p = decimal_text(n / 10);
        assert(t.drop_last() == p);
        assert forall|k: int| 0 <= k < t.len() implies is_digit(#[trigger] t[k]) by {
            if k < p.len() {
                assert(t[k] == p[k]);
            }
        }
        assert(t[0] == p[0]);
        assert(digit_char(n as int % 10) as int == '0' as int + n % 10);
        assert((n / 10) * 10 + n % 10 == n) by (nonlinear_arith);
        assert(t.last() == digit_char(n as int % 10));
        assert(digits_value(t) == digits_value(p) * 10 + (t.last() as int - '0' as int));
    } else {
        assert(t.drop_last() == Seq::<char>::empty());
        assert(digits_value(t) == digits_value(t.drop_last()) * 10 + (t.last() as int - '0' as int));
        assert(digit_char(n as int) as int == '0' as int + n);
    }
}

/// The decimal text of a number not above `max` parses back to it.
pub proof fn lemma_parse_decimal_text(n: nat, max: int)
    requires
        n <= max,
    ensures
        parse_unsigned(decimal_text(n), max) == Some(n as int),
{
    lemma_decimal_text_value(n);
}

/// The decimal text of a number has no leading zero: it starts with `0`
/// only where it is `0` itself.
pub proof fn lemma_decimal_text_no_leading_zero(n: nat)
    ensures
        decimal_text(n)[0] == '0' ==> n == 0 && decimal_text(n).len() == 1,
    decreases n,
{
    if n >= 10 {
        lemma_decimal_text_no_leading_zero(n / 10);
        lemma_decimal_text_value(n / 10);
        assert(decimal_text(n)[0] == decimal_text(n / 10)[0]);
    } else {
        assert(digit_char(n as int) == '0' ==> n == 0);
    }
}

} // verus!
