//! Verified decimal text codec for the integer row fields.
//!
//! Integer fields travel as plain decimal text in the delimited records, so
//! the library parses and renders them itself and proves the round trip:
//! rendering an integer and parsing the text back yields the same integer.

use vstd::prelude::*;

verus! {

/// Whether `c` is one of the ten decimal digit characters.
pub open spec fn is_dec_digit(c: char) -> bool {
    48 <= c as u32 <= 57
}

/// The numeric value of a decimal digit character.
pub open spec fn digit_val(c: char) -> int {
    c as u32 - 48
}

/// The decimal digit character for a value below ten.
pub open spec fn digit_char(d: int) -> char {
    if d == 0 {
        '0'
    } else if d == 1 {
        '1'
    } else if d == 2 {
        '2'
    } else if d == 3 {
        '3'
    } else if d == 4 {
        '4'
    } else if d == 5 {
        '5'
    } else if d == 6 {
        '6'
    } else if d == 7 {
        '7'
    } else if d == 8 {
        '8'
    } else {
        '9'
    }
}

/// Whether every character of `s` is a decimal digit.
pub open spec fn all_dec_digits(s: Seq<char>) -> bool {
    forall|i: int| 0 <= i < s.len() ==> is_dec_digit(#[trigger] s[i])
}

/// The numeric value of a digit string, most significant digit first.
pub open spec fn dec_val(s: Seq<char>) -> int
    decreases s.len(),
{
    if s.len() == 0 {
        0
    } else {
        dec_val(s.drop_last()) * 10 + digit_val(s.last())
    }
}

/// The decimal text of an unsigned 64-bit integer, without sign or leading
/// zeros (zero itself is `0`).
pub open spec fn u64_dec(n: u64) -> Seq<char>
    decreases n,
{
    if n < 10 {
        seq![digit_char(n as int)]
    } else {
        u64_dec(n / 10).push(digit_char((n % 10) as int))
    }
}

/// The decimal text of a signed 64-bit integer: a leading minus sign for
/// negative values, then the magnitude's digits.
pub open spec fn i64_dec(n: i64) -> Seq<char> {
    if n < 0 {
        seq!['-'] + u64_dec((-(n as int)) as u64)
    } else {
        u64_dec(n as u64)
    }
}

/// The value of a non-empty all-digit string that fits in 64 bits, and
/// nothing else.
pub open spec fn parse_digits_spec(s: Seq<char>) -> Option<u64> {
    if s.len() >= 1 && all_dec_digits(s) && dec_val(s) <= u64::MAX {
        Some(dec_val(s) as u64)
    } else {
        None
    }
}

/// What parsing an unsigned decimal field yields: an optional single leading
/// plus sign, then a non-empty all-digit string whose value fits in 64 bits.
pub open spec fn parse_u64_spec(s: Seq<char>) -> Option<u64> {
    if s.len() >= 1 && s[0] == '+' {
        parse_digits_spec(s.drop_first())
    } else {
        parse_digits_spec(s)
    }
}

/// What parsing a signed decimal field yields: an optional single sign, then
/// a non-empty all-digit string, with the signed value in range.
pub open spec fn parse_i64_spec(s: Seq<char>) -> Option<i64> {
    if s.len() >= 1 && s[0] == '-' {
        let mag = s.subrange(1, s.len() as int);
        if mag.len() >= 1 && all_dec_digits(mag) && dec_val(mag) <= 0x8000_0000_0000_0000 {
            Some((-dec_val(mag)) as i64)
        } else {
            None
        }
    } else {
        match parse_u64_spec(s) {
            Some(v) => if v <= i64::MAX {
                Some(v as i64)
            } else {
                None
            },
            None => None,
        }
    }
}

/// A digit string has a non-negative value.
pub proof fn lemma_dec_val_nonneg(s: Seq<char>)
    requires
        all_dec_digits(s),
    ensures
        dec_val(s) >= 0,
    decreases s.len(),
{
    if s.len() > 0 {
        assert(all_dec_digits(s.drop_last())) by {
            assert(forall|i: int|
                0 <= i < s.len() - 1 ==> s.drop_last()[i] == #[trigger] s[i]);
        }
        lemma_dec_val_nonneg(s.drop_last());
    }
}

/// Extending a digit string to the right never lowers its value.
pub proof fn lemma_dec_val_prefix_le(s: Seq<char>, j: int)
    requires
        all_dec_digits(s),
        0 <= j <= s.len(),
    ensures
        dec_val(s.subrange(0, j)) <= dec_val(s),
    decreases s.len() - j,
{
    if j == s.len() {
        assert(s.subrange(0, j) =~= s);
    } else {
        lemma_dec_val_prefix_le(s, j + 1);
        let shorter = s.subrange(0, j);
        let longer = s.subrange(0, j + 1);
        assert(longer.drop_last() =~= shorter);
        assert(all_dec_digits(shorter)) by {
            assert(forall|i: int| 0 <= i < j ==> shorter[i] == #[trigger] s[i]);
        }
        lemma_dec_val_nonneg(shorter);
        assert(dec_val(longer) == dec_val(shorter) * 10 + digit_val(s[j]));
    }
}

/// Parses a non-empty all-digit field.
fn parse_digits(s: &str) -> (r: Option<u64>)
    ensures
        r == parse_digits_spec(s@),
{
    let n = s.unicode_len();
    if n == 0 {
        return None;
    }
    let mut acc: u64 = 0;
    let mut i: usize = 0;
    while i < n
        invariant
            0 <= i <= n,
            n == s@.len(),
            all_dec_digits(s@.subrange(0, i as int)),
            acc == dec_val(s@.subrange(0, i as int)),
        decreases n - i,
    {
        let c = s.get_char(i);
        let code = c as u32;
        let ghost prefix = s@.subrange(0, i as int);
        let ghost extended = s@.subrange(0, i + 1);
        proof {
            assert(extended.drop_last() =~= prefix);
            assert(extended.last() == s@[i as int]);
        }
        if code < 48 || code > 57 {
            assert(!is_dec_digit(s@[i as int]));
            return None;
        }
        let d = (code - 48) as u64;
        assert(d == digit_val(s@[i as int]));
        let overflowed: bool = acc > 0xffff_ffff_ffff_ffffu64 / 10
            || (acc == 0xffff_ffff_ffff_ffffu64 / 10 && d > 0xffff_ffff_ffff_ffffu64 % 10);
        if overflowed {
            proof {
                lemma_dec_val_nonneg(prefix);
                assert(dec_val(extended) > u64::MAX);
                if all_dec_digits(s@) {
                    lemma_dec_val_prefix_le(s@, i + 1);
                    assert(extended =~= s@.subrange(0, i + 1));
                }
            }
            return None;
        }
        acc = acc * 10 + d;
        i += 1;
    }
    proof {
        assert(s@.subrange(0, n as int) =~= s@);
    }
    Some(acc)
}

/// Parses an unsigned decimal field: an optional leading plus sign, then
/// digits.
pub fn parse_u64(s: &str) -> (r: Option<u64>)
    ensures
        r == parse_u64_spec(s@),
{
    let n = s.unicode_len();
    if n >= 1 && s.get_char(0) == '+' {
        let digits = s.substring_char(1, n);
        proof {
            assert(digits@ =~= s@.drop_first());
        }
        parse_digits(digits)
    } else {
        parse_digits(s)
    }
}

/// Parses a signed decimal field.
pub fn parse_i64(s: &str) -> (r: Option<i64>)
    ensures
        r == parse_i64_spec(s@),
{
    let n = s.unicode_len();
    if n == 0 {
        return None;
    }
    let c0 = s.get_char(0);
    if c0 == '-' {
        let mag = s.substring_char(1, n);
        match parse_digits(mag) {
            Some(v) => {
                proof {
                    lemma_dec_val_nonneg(mag@);
                }
                if v <= 0x8000_0000_0000_0000u64 {
                    if v == 0x8000_0000_0000_0000u64 {
                        Some(i64::MIN)
                    } else {
                        Some(-(v as i64))
                    }
                } else {
                    None
                }
            },
            None => None,
        }
    } else {
        match parse_u64(s) {
            Some(v) => {
                if v <= 0x7fff_ffff_ffff_ffffu64 {
                    Some(v as i64)
                } else {
                    None
                }
            },
            None => None,
        }
    }
}

/// The decimal digit character for `d`, as text.
fn digit_str(d: u64) -> (r: &'static str)
    requires
        d < 10,
    ensures
        r@ =~= seq![digit_char(d as int)],
{
    proof {
        reveal_strlit("0");
        reveal_strlit("1");
        reveal_strlit("2");
        reveal_strlit("3");
        reveal_strlit("4");
        reveal_strlit("5");
        reveal_strlit("6");
        reveal_strlit("7");
        reveal_strlit("8");
        reveal_strlit("9");
    }
    if d == 0 {
        "0"
    } else if d == 1 {
        "1"
    } else if d == 2 {
        "2"
    } else if d == 3 {
        "3"
    } else if d == 4 {
        "4"
    } else if d == 5 {
        "5"
    } else if d == 6 {
        "6"
    } else if d == 7 {
        "7"
    } else if d == 8 {
        "8"
    } else {
        "9"
    }
}

/// Renders an unsigned 64-bit integer as decimal text.
pub fn u64_to_dec(n: u64) -> (r: String)
    ensures
        r@ == u64_dec(n),
    decreases n,
{
    if n < 10 {
        digit_str(n).to_owned()
    } else {
        let prefix = u64_to_dec(n / 10);
        let r = prefix.concat(digit_str(n % 10));
        proof {
            assert(r@ =~= u64_dec(n / 10).push(digit_char((n % 10) as int)));
        }
        r
    }
}

/// Renders a signed 64-bit integer as decimal text.
pub fn i64_to_dec(n: i64) -> (r: String)
    ensures
        r@ == i64_dec(n),
{
    if n >= 0 {
        u64_to_dec(n as u64)
    } else {
        let mag: u64 = ((-(n + 1)) as u64) + 1;
        assert(mag == (-(n as int)) as u64);
        let minus = "-";
        proof {
            reveal_strlit("-");
        }
        let digits = u64_to_dec(mag);
        let r = minus.to_owned().concat(digits.as_str());
        proof {
            assert(r@ =~= seq!['-'] + u64_dec(mag));
        }
        r
    }
}

/// The rendered text of an unsigned integer is all digits.
pub proof fn lemma_u64_dec_digits(n: u64)
    ensures
        u64_dec(n).len() >= 1,
        all_dec_digits(u64_dec(n)),
    decreases n,
{
    if n < 10 {
        assert(u64_dec(n) =~= seq![digit_char(n as int)]);
        assert(is_dec_digit(digit_char(n as int)));
    } else {
        lemma_u64_dec_digits(n / 10);
        let prefix = u64_dec(n / 10);
        let whole = prefix.push(digit_char((n % 10) as int));
        assert(is_dec_digit(digit_char((n % 10) as int)));
        assert(forall|i: int| 0 <= i < whole.len() ==> is_dec_digit(#[trigger] whole[i])) by {
            assert(forall|i: int| 0 <= i < prefix.len() ==> whole[i] == #[trigger] prefix[i]);
        }
    }
}

/// Parsing back the rendered text of an unsigned integer yields its value.
pub proof fn lemma_u64_dec_val(n: u64)
    ensures
        dec_val(u64_dec(n)) == n,
    decreases n,
{
    if n < 10 {
        let s = u64_dec(n);
        assert(s.drop_last() =~= Seq::<char>::empty());
        assert(dec_val(Seq::<char>::empty()) == 0);
        assert(dec_val(s) == dec_val(s.drop_last()) * 10 + digit_val(s.last()));
        assert(digit_val(digit_char(n as int)) == n);
    } else {
        lemma_u64_dec_val(n / 10);
        let prefix = u64_dec(n / 10);
        let whole = prefix.push(digit_char((n % 10) as int));
        assert(whole.drop_last() =~= prefix);
        assert(digit_val(digit_char((n % 10) as int)) == n % 10);
        assert(dec_val(whole) == dec_val(prefix) * 10 + n % 10);
        assert(n == (n / 10) * 10 + n % 10);
    }
}

/// Round trip for unsigned integers: render, then parse, is the identity.
pub proof fn lemma_u64_round_trip(n: u64)
    ensures
        parse_u64_spec(u64_dec(n)) == Some(n),
{
    lemma_u64_dec_digits(n);
    lemma_u64_dec_val(n);
}

/// Round trip for signed integers: render, then parse, is the identity.
pub proof fn lemma_i64_round_trip(n: i64)
    ensures
        parse_i64_spec(i64_dec(n)) == Some(n),
{
    if n >= 0 {
        lemma_u64_dec_digits(n as u64);
        lemma_u64_dec_val(n as u64);
        let s = i64_dec(n);
        assert(s == u64_dec(n as u64));
        assert(s[0] != '-') by {
            assert(is_dec_digit(s[0]));
        }
    } else {
        let mag: u64 = (-(n as int)) as u64;
        lemma_u64_dec_digits(mag);
        lemma_u64_dec_val(mag);
        let s = i64_dec(n);
        assert(s == seq!['-'] + u64_dec(mag));
        assert(s[0] == '-');
        assert(s.subrange(1, s.len() as int) =~= u64_dec(mag));
        assert(!is_dec_digit('-'));
    }
}

} // verus!
