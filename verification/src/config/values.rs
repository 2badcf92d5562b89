//! What the values of settings mean.

use vstd::prelude::*;
use vstd::slice::slice_subrange;
use vstd::utf8::{encode_utf8, is_ascii_chars_encode_utf8};

use crate::bytes::{eq_ignore_case, lower_bytes, same_ignoring_case};
use crate::walk::{decimal_value, is_decimal, is_digit};

verus! {

/// Whether a byte is one of the blanks that may precede a number.
pub open spec fn is_blank(b: u8) -> bool {
    b == 0x20 || 0x09 <= b <= 0x0d
}

/// What follows the leading blanks.
pub open spec fn unblanked(s: Seq<u8>) -> Seq<u8>
    decreases s.len(),
{
    if s.len() > 0 && is_blank(s[0]) {
        unblanked(s.drop_first())
    } else {
        s
    }
}

/// The value of a digit, where it is one in the given radix.
pub open spec fn digit_of(b: u8, radix: int) -> Option<int> {
    let d = if 0x30 <= b <= 0x39 {
        b - 0x30
    } else if 0x61 <= b <= 0x66 {
        b - 0x61 + 10
    } else if 0x41 <= b <= 0x46 {
        b - 0x41 + 10
    } else {
        16
    };
    if d < radix {
        Some(d)
    } else {
        None
    }
}

/// How many digits a byte string begins with.
pub open spec fn digit_run(s: Seq<u8>, radix: int) -> nat
    decreases s.len(),
{
    if s.len() > 0 && digit_of(s[0], radix) is Some {
        1 + digit_run(s.drop_first(), radix)
    } else {
        0
    }
}

/// The number that digits stand for.
pub open spec fn number(s: Seq<u8>, radix: int) -> int
    decreases s.len(),
{
    if s.len() == 0 {
        0
    } else {
        radix * number(s.drop_last(), radix) + digit_of(s.last(), radix)->0
    }
}

/// What the unit behind a number multiplies it by.
pub open spec fn unit_factor(s: Seq<u8>) -> Option<int> {
    if s.len() == 0 {
        Some(1)
    } else if s.len() > 1 {
        None
    } else if s[0] == 0x6b || s[0] == 0x4b {
        Some(1024)
    } else if s[0] == 0x6d || s[0] == 0x4d {
        Some(0x10_0000)
    } else if s[0] == 0x67 || s[0] == 0x47 {
        Some(0x4000_0000)
    } else {
        None
    }
}

/// The radix of a number and its digits: `0x` begins a hexadecimal number, a
/// `0` with something behind it an octal one, of which it is the first digit.
pub open spec fn radix_split(s: Seq<u8>) -> (int, Seq<u8>) {
    if s.len() >= 2 && s[0] == 0x30 && (s[1] == 0x78 || s[1] == 0x58) {
        (16, s.skip(2))
    } else if s.len() > 1 && s[0] == 0x30 {
        (8, s)
    } else {
        (10, s)
    }
}

/// The number without its sign.
pub open spec fn unsigned_part(s: Seq<u8>) -> Seq<u8> {
    if s.len() > 0 && (s[0] == 0x2d || s[0] == 0x2b) {
        s.skip(1)
    } else {
        s
    }
}

/// The integer that a value spells: blanks, a sign, digits, a unit. None
/// where it spells none, or one that has no place in 64 bits.
pub open spec fn git_int(text: Seq<u8>) -> Option<int> {
    let signed = unblanked(text);
    let negative = signed.len() > 0 && signed[0] == 0x2d;
    let (radix, digits) = radix_split(unsigned_part(signed));
    let n = digit_run(digits, radix) as int;
    let magnitude = number(digits.take(n), radix);
    match unit_factor(digits.skip(n)) {
        None => None,
        Some(factor) => if n == 0 || magnitude * factor > i64::MAX {
            None
        } else if negative {
            Some(-(magnitude * factor))
        } else {
            Some(magnitude * factor)
        },
    }
}

/// A run of digits ends where the next byte is none.
proof fn lemma_digit_run(s: Seq<u8>, radix: int, n: int)
    requires
        0 <= n <= s.len(),
        forall|j: int| 0 <= j < n ==> digit_of(#[trigger] s[j], radix) is Some,
        n < s.len() ==> digit_of(s[n], radix) is None,
    ensures
        digit_run(s, radix) == n,
    decreases n,
{
    if n > 0 {
        let rest = s.drop_first();
        assert(digit_of(s[0], radix) is Some);
        assert forall|j: int| 0 <= j < n - 1 implies digit_of(#[trigger] rest[j], radix) is Some by {
            assert(rest[j] == s[j + 1]);
        }
        lemma_digit_run(rest, radix, n - 1);
    }
}

/// A run of digits is no longer than the byte string and holds only digits.
proof fn lemma_run_is_digits(s: Seq<u8>, radix: int)
    ensures
        digit_run(s, radix) <= s.len(),
        forall|j: int| 0 <= j < digit_run(s, radix) ==> digit_of(#[trigger] s[j], radix) is Some,
    decreases s.len(),
{
    if s.len() > 0 && digit_of(s[0], radix) is Some {
        let rest = s.drop_first();
        lemma_run_is_digits(rest, radix);
        assert forall|j: int| 0 <= j < digit_run(s, radix) implies digit_of(
            #[trigger] s[j],
            radix,
        ) is Some by {
            if j > 0 {
                assert(rest[j - 1] == s[j]);
            }
        }
    }
}

/// More digits never stand for a smaller number.
proof fn lemma_number_grows(s: Seq<u8>, radix: int, m: int, n: int)
    requires
        radix >= 1,
        0 <= m <= n <= s.len(),
        forall|j: int| 0 <= j < n ==> digit_of(#[trigger] s[j], radix) is Some,
    ensures
        0 <= number(s.take(m), radix) <= number(s.take(n), radix),
    decreases n,
{
    if n == 0 {
        assert(s.take(m) =~= s.take(n));
    } else {
        assert(s.take(n).drop_last() =~= s.take(n - 1));
        assert(digit_of(s[n - 1], radix) is Some);
        assert(s.take(n).last() == s[n - 1]);
        lemma_number_grows(s, radix, if m < n { m } else { 0 }, n - 1);
        let before = number(s.take(n - 1), radix);
        assert(radix * before >= before) by (nonlinear_arith)
            requires
                radix >= 1,
                before >= 0,
        ;
        if m == n {
            assert(s.take(m) =~= s.take(n));
        }
    }
}

/// The value of a digit.
fn digit(b: u8, radix: u8) -> (r: Option<u8>)
    requires
        radix <= 16,
    ensures
        match r {
            Some(d) => digit_of(b, radix as int) == Some(d as int) && d < radix,
            None => digit_of(b, radix as int) is None,
        },
{
    let d: u8 = if 0x30 <= b && b <= 0x39 {
        b - 0x30
    } else if 0x61 <= b && b <= 0x66 {
        b - 0x61 + 10
    } else if 0x41 <= b && b <= 0x46 {
        b - 0x41 + 10
    } else {
        16
    };
    if d < radix {
        Some(d)
    } else {
        None
    }
}

/// The number that the leading digits stand for and how many they are; none
/// where it has no place in 64 bits.
fn leading_number(s: &[u8], radix: u8) -> (r: Option<(i64, usize)>)
    requires
        2 <= radix <= 16,
    ensures
        ({
            let n = digit_run(s@, radix as int);
            let value = number(s@.take(n as int), radix as int);
            match r {
                Some((v, used)) => used == n && v == value && v >= 0 && used <= s@.len(),
                None => value > i64::MAX,
            }
        }),
{
    let mut acc: i64 = 0;
    let mut i: usize = 0;
    assert(s@.take(0) =~= Seq::empty());
    while i < s.len()
        invariant
            i <= s@.len(),
            2 <= radix <= 16,
            acc >= 0,
            acc == number(s@.take(i as int), radix as int),
            forall|j: int| 0 <= j < i ==> digit_of(#[trigger] s@[j], radix as int) is Some,
        decreases s@.len() - i,
    {
        match digit(s[i], radix) {
            None => {
                proof {
                    lemma_digit_run(s@, radix as int, i as int);
                }
                return Some((acc, i));
            },
            Some(d) => {
                let ghost whole = radix * acc + d;
                proof {
                    assert(s@.take(i + 1).drop_last() =~= s@.take(i as int));
                    assert(number(s@.take(i + 1), radix as int) == whole);
                }
                assert(0 <= acc * radix <= 0x7fff_ffff_ffff_ffff * 16) by (nonlinear_arith)
                    requires
                        0 <= acc <= 0x7fff_ffff_ffff_ffff,
                        2 <= radix <= 16,
                ;
                let wide: i128 = (acc as i128) * (radix as i128) + (d as i128);
                assert(wide == whole) by {
                    assert(acc as int * radix as int == radix as int * acc as int)
                        by (nonlinear_arith);
                }
                if wide > i64::MAX as i128 {
                    proof {
                        lemma_run_is_digits(s@, radix as int);
                        let n = digit_run(s@, radix as int) as int;
                        lemma_more_digits(s@, radix as int, i + 1);
                        lemma_number_grows(s@, radix as int, i + 1, n);
                    }
                    return None;
                }
                acc = wide as i64;
            },
        }
        i += 1;
    }
    proof {
        lemma_digit_run(s@, radix as int, i as int);
    }
    Some((acc, i))
}

/// Leading digits belong to the run.
proof fn lemma_more_digits(s: Seq<u8>, radix: int, n: int)
    requires
        0 <= n <= s.len(),
        forall|j: int| 0 <= j < n ==> digit_of(#[trigger] s[j], radix) is Some,
    ensures
        digit_run(s, radix) >= n,
    decreases n,
{
    if n > 0 {
        let rest = s.drop_first();
        assert(digit_of(s[0], radix) is Some);
        assert forall|j: int| 0 <= j < n - 1 implies digit_of(#[trigger] rest[j], radix) is Some by {
            assert(rest[j] == s[j + 1]);
        }
        lemma_more_digits(rest, radix, n - 1);
    }
}

/// What the unit behind a number multiplies it by.
fn unit(s: &[u8]) -> (r: Option<i64>)
    ensures
        match r {
            Some(f) => unit_factor(s@) == Some(f as int) && 1 <= f <= 0x4000_0000,
            None => unit_factor(s@) is None,
        },
{
    if s.len() == 0 {
        Some(1)
    } else if s.len() > 1 {
        None
    } else if s[0] == 0x6b || s[0] == 0x4b {
        Some(1024)
    } else if s[0] == 0x6d || s[0] == 0x4d {
        Some(1024 * 1024)
    } else if s[0] == 0x67 || s[0] == 0x47 {
        Some(1024 * 1024 * 1024)
    } else {
        None
    }
}

/// The integer that a value spells.
pub fn parse_git_int(value: &[u8]) -> (r: Option<i64>)
    ensures
        match r {
            Some(n) => git_int(value@) == Some(n as int),
            None => git_int(value@) is None,
        },
{
    let end: usize = value.len();
    let mut i: usize = 0;
    assert(value@.skip(0) =~= value@);
    while i < end && (value[i] == 0x20 || (0x09 <= value[i] && value[i] <= 0x0d))
        invariant
            i <= end == value@.len(),
            unblanked(value@) == unblanked(value@.skip(i as int)),
        decreases end - i,
    {
        assert(value@.skip(i as int).drop_first() =~= value@.skip(i + 1));
        i += 1;
    }
    let ghost signed = unblanked(value@);
    assert(signed =~= value@.skip(i as int));
    let negative = i < end && value[i] == 0x2d;
    if i < end && (value[i] == 0x2d || value[i] == 0x2b) {
        i += 1;
    }
    let body = slice_subrange(value, i, end);
    assert(body@ =~= unsigned_part(signed));
    let width: usize = body.len();
    let (radix, digits): (u8, &[u8]) = if width >= 2 && body[0] == 0x30 && (body[1] == 0x78
        || body[1] == 0x58) {
        (16, slice_subrange(body, 2, width))
    } else if width > 1 && body[0] == 0x30 {
        (8, body)
    } else {
        (10, body)
    };
    assert(digits@ =~= radix_split(unsigned_part(signed)).1);
    let ghost n = digit_run(digits@, radix as int) as int;
    proof {
        lemma_run_is_digits(digits@, radix as int);
        lemma_number_grows(digits@, radix as int, 0, n);
    }
    match leading_number(digits, radix) {
        None => {
            proof {
                let value = number(digits@.take(n), radix as int);
                match unit_factor(digits@.skip(n)) {
                    Some(f) => {
                        assert(value * f >= value) by (nonlinear_arith)
                            requires
                                value >= 0,
                                f >= 1,
                        ;
                    },
                    None => {},
                }
            }
            None
        },
        Some((magnitude, used)) => {
            let tail: usize = digits.len();
            let rest = slice_subrange(digits, used, tail);
            assert(rest@ =~= digits@.skip(n));
            if used == 0 {
                return None;
            }
            match unit(rest) {
                None => None,
                Some(factor) => {
                    assert(0 <= magnitude * factor <= 0x7fff_ffff_ffff_ffff * 0x4000_0000)
                        by (nonlinear_arith)
                        requires
                            0 <= magnitude <= 0x7fff_ffff_ffff_ffff,
                            1 <= factor <= 0x4000_0000,
                    ;
                    let wide: i128 = (magnitude as i128) * (factor as i128);
                    if wide > i64::MAX as i128 {
                        return None;
                    }
                    let value: i64 = wide as i64;
                    if negative {
                        Some(-value)
                    } else {
                        Some(value)
                    }
                },
            }
        },
    }
}

/// Whether a value is one of the spellings, whatever the case of its letters.
pub open spec fn spelled_like(value: Seq<u8>, word: Seq<char>) -> bool {
    same_ignoring_case(value, encode_utf8(word))
}

/// Whether a setting is on: a key without a value is, `yes`, `on`, `true`
/// and every integer but zero are; everything else is off.
pub open spec fn is_on(value: Option<Seq<u8>>) -> bool {
    match value {
        None => true,
        Some(v) => {
            ||| spelled_like(v, "yes"@)
            ||| spelled_like(v, "on"@)
            ||| spelled_like(v, "true"@)
            ||| (git_int(v) matches Some(n) && n != 0)
        },
    }
}

/// A word without a digit spells no integer.
proof fn lemma_word_is_no_integer(v: Seq<u8>)
    requires
        v.len() > 0,
        !is_blank(v[0]),
        v[0] != 0x2d && v[0] != 0x2b,
        digit_of(v[0], 10) is None,
    ensures
        git_int(v) is None,
{
    assert(unblanked(v) == v);
    assert(digit_run(v, 10) == 0);
}

/// What the lower case of a byte says of the byte.
proof fn lemma_off_words(v: Seq<u8>)
    requires
        spelled_like(v, "no"@) || spelled_like(v, "off"@) || spelled_like(v, "false"@) || v.len()
            == 0,
    ensures
        git_int(v) is None,
        !is_on(Some(v)),
{
    reveal_strlit("yes");
    reveal_strlit("on");
    reveal_strlit("true");
    reveal_strlit("no");
    reveal_strlit("off");
    reveal_strlit("false");
    vstd::utf8::is_ascii_chars_encode_utf8("yes"@);
    vstd::utf8::is_ascii_chars_encode_utf8("on"@);
    vstd::utf8::is_ascii_chars_encode_utf8("true"@);
    vstd::utf8::is_ascii_chars_encode_utf8("no"@);
    vstd::utf8::is_ascii_chars_encode_utf8("off"@);
    vstd::utf8::is_ascii_chars_encode_utf8("false"@);
    let low = crate::bytes::lower_bytes(v);
    assert(low.len() == v.len());
    if v.len() == 0 {
        assert(unblanked(v) == v);
        assert(git_int(v) is None);
    } else {
        assert(low[0] == crate::bytes::lower_byte(v[0]));
        lemma_word_is_no_integer(v);
    }
    let no = crate::bytes::lower_bytes(encode_utf8("no"@));
    let off = crate::bytes::lower_bytes(encode_utf8("off"@));
    let falsy = crate::bytes::lower_bytes(encode_utf8("false"@));
    assert(no.len() == 2 && off.len() == 3 && falsy.len() == 5);
    assert(no[0] == 0x6e);
    assert(off[1] == 0x66);
    assert(crate::bytes::lower_bytes(encode_utf8("yes"@)).len() == 3);
    assert(crate::bytes::lower_bytes(encode_utf8("yes"@))[1] == 0x65);
    assert(crate::bytes::lower_bytes(encode_utf8("on"@)).len() == 2);
    assert(crate::bytes::lower_bytes(encode_utf8("on"@))[0] == 0x6f);
    assert(crate::bytes::lower_bytes(encode_utf8("true"@)).len() == 4);
}

/// Whether a setting is on, which every reader of the configuration asks
/// here.
pub fn git_boolean(value: Option<&[u8]>) -> (r: bool)
    ensures
        r == is_on(match value {
            Some(v) => Some(v@),
            None => None,
        }),
{
    let v = match value {
        Some(v) => v,
        None => return true,
    };
    if eq_ignore_case(v, "yes".as_bytes()) || eq_ignore_case(v, "on".as_bytes()) || eq_ignore_case(
        v,
        "true".as_bytes(),
    ) {
        return true;
    }
    if eq_ignore_case(v, "no".as_bytes()) || eq_ignore_case(v, "off".as_bytes()) || eq_ignore_case(
        v,
        "false".as_bytes(),
    ) || v.len() == 0 {
        proof {
            lemma_off_words(v@);
        }
        return false;
    }
    match parse_git_int(v) {
        Some(n) => n != 0,
        None => false,
    }
}

/// Whether a variable that switches something off does so: unset, empty, and
/// the spellings of false do not, everything else does.
pub open spec fn is_truthy(value: Option<Seq<u8>>) -> bool {
    match value {
        None => false,
        Some(v) => !(v.len() == 0 || spelled_like(v, "0"@) || spelled_like(v, "false"@)
            || spelled_like(v, "no"@) || spelled_like(v, "off"@)),
    }
}

/// Whether a variable that switches something off does so.
pub fn truthy(value: Option<&[u8]>) -> (r: bool)
    ensures
        r == is_truthy(match value {
            Some(v) => Some(v@),
            None => None,
        }),
{
    match value {
        None => false,
        Some(v) => !(v.len() == 0 || eq_ignore_case(v, "0".as_bytes()) || eq_ignore_case(
            v,
            "false".as_bytes(),
        ) || eq_ignore_case(v, "no".as_bytes()) || eq_ignore_case(v, "off".as_bytes())),
    }
}

/// A number without its plus sign.
pub open spec fn unplussed(v: Seq<u8>) -> Seq<u8> {
    if v.len() > 0 && v[0] == 0x2b {
        v.skip(1)
    } else {
        v
    }
}

/// Whether a byte string is made of `0` alone.
pub open spec fn all_zeros(digits: Seq<u8>) -> bool {
    digits.len() > 0 && forall|j: int| 0 <= j < digits.len() ==> #[trigger] digits[j] == 0x30
}

/// Whether a byte string is a zero, with a plus sign or without.
pub open spec fn spells_zero(v: Seq<u8>) -> bool {
    all_zeros(unplussed(v))
}

/// Whether a count of settings counts any. An empty count and zero do not;
/// one that is no number is for git to report.
pub fn git_config_count_applies(value: &[u8]) -> (r: bool)
    ensures
        r == (value@.len() > 0 && !spells_zero(value@)),
{
    if value.len() == 0 {
        return false;
    }
    let end: usize = value.len();
    let digits = if value[0] == 0x2b {
        slice_subrange(value, 1, end)
    } else {
        value
    };
    assert(digits@ =~= unplussed(value@));
    let mut i: usize = 0;
    while i < digits.len()
        invariant
            i <= digits@.len(),
            value@.len() > 0,
            digits@ == unplussed(value@),
            forall|j: int| 0 <= j < i ==> #[trigger] digits@[j] == 0x30,
        decreases digits@.len() - i,
    {
        if digits[i] != 0x30 {
            assert(digits@[i as int] != 0x30);
            return true;
        }
        i += 1;
    }
    digits.len() == 0
}

/// A count is a zero if and only if it is a decimal number that stands for
/// zero, with a plus sign or without.
pub proof fn law_zero_count(v: Seq<u8>)
    ensures
        spells_zero(v) <==> is_decimal(unplussed(v)) && decimal_value(unplussed(v)) == 0,
{
    lemma_zeros(unplussed(v));
}

proof fn lemma_zeros(digits: Seq<u8>)
    ensures
        all_zeros(digits) <==> is_decimal(digits) && decimal_value(digits) == 0,
    decreases digits.len(),
{
    if digits.len() > 0 {
        let shorter = digits.drop_last();
        lemma_zeros(shorter);
        assert(digits[digits.len() - 1] == digits.last());
        if all_zeros(digits) {
            assert forall|i: int| 0 <= i < digits.len() implies is_digit(#[trigger] digits[i]) by {
                assert(digits[i] == 0x30);
            }
            assert(forall|i: int| 0 <= i < shorter.len() ==> #[trigger] shorter[i] == digits[i]);
            if shorter.len() > 0 {
                assert(all_zeros(shorter));
            }
            assert(digits.last() == 0x30);
            assert(decimal_value(shorter) == 0);
            assert(decimal_value(digits) == 0);
        }
        if is_decimal(digits) && decimal_value(digits) == 0 {
            assert(is_digit(digits[digits.len() - 1]));
            assert(decimal_value(shorter) == 0 && digits.last() == 0x30);
            assert(forall|i: int| 0 <= i < shorter.len() ==> #[trigger] shorter[i] == digits[i]);
            if shorter.len() > 0 {
                assert(is_decimal(shorter)) by {
                    assert forall|i: int| 0 <= i < shorter.len() implies is_digit(
                        #[trigger] shorter[i],
                    ) by {
                        assert(is_digit(digits[i]));
                    }
                }
            }
            assert forall|j: int| 0 <= j < digits.len() implies #[trigger] digits[j] == 0x30 by {
                if j < shorter.len() {
                    assert(shorter[j] == 0x30);
                }
            }
        }
    }
}

proof fn lemma_decimal_number(s: Seq<u8>)
    requires
        forall|i: int| 0 <= i < s.len() ==> is_digit(#[trigger] s[i]),
    ensures
        number(s, 10) == decimal_value(s),
    decreases s.len(),
{
    if s.len() > 0 {
        let shorter = s.drop_last();
        assert forall|i: int| 0 <= i < shorter.len() implies is_digit(#[trigger] shorter[i]) by {
            assert(shorter[i] == s[i]);
        }
        lemma_decimal_number(shorter);
        assert(is_digit(s[s.len() - 1]));
    }
}

/// What precedes the first byte that is no digit is read as a number.
proof fn lemma_number_with_unit(digits: Seq<u8>, unit: u8)
    requires
        is_decimal(digits),
        digits[0] != 0x30 || digits.len() == 1,
        unit == 0x6b || unit == 0x4b || unit == 0x6d || unit == 0x4d || unit == 0x67 || unit == 0x47,
    ensures
        ({
            let n = decimal_value(digits) as int;
            let factor = unit_factor(seq![unit])->0;
            &&& git_int(digits.push(unit)) == (if n * factor <= i64::MAX {
                Some(n * factor)
            } else {
                None
            })
            &&& git_int(digits.push(unit).push(unit)) is None
        }),
{
    let len = digits.len() as int;
    let with = digits.push(unit);
    let twice = with.push(unit);
    let radix: int = if digits[0] == 0x30 {
        8
    } else {
        10
    };
    assert(is_digit(digits[0]));
    assert forall|j: int| 0 <= j < len implies digit_of(#[trigger] with[j], radix) is Some by {
        assert(with[j] == digits[j]);
        assert(is_digit(digits[j]));
    }
    assert forall|j: int| 0 <= j < len implies digit_of(#[trigger] twice[j], radix) is Some by {
        assert(twice[j] == digits[j]);
        assert(is_digit(digits[j]));
    }
    lemma_digit_run(with, radix, len);
    lemma_digit_run(twice, radix, len);
    assert(with.take(len) =~= digits);
    assert(with.skip(len) =~= seq![unit]);
    assert(twice.skip(len).len() == 2);
    assert(unblanked(with) == with);
    assert(unblanked(twice) == twice);
    assert(radix_split(with) == (radix, with));
    assert(radix_split(twice) == (radix, twice));
    if radix == 10 {
        lemma_decimal_number(digits);
    } else {
        assert(digits.drop_last() =~= Seq::<u8>::empty());
        assert(number(digits.drop_last(), 8) == 0);
        assert(decimal_value(digits.drop_last()) == 0);
        assert(number(digits, 8) == 0);
        assert(decimal_value(digits) == 0);
    }
}

/// A decimal number is read as what it stands for. A minus sign before it
/// makes it negative, a plus sign changes nothing, nor do blanks; `k`, `m`
/// and `g` behind it, in either case, each stand for 1024 of what precedes
/// it; and what has no place in 64 bits is none.
#[verifier::rlimit(40)]
pub proof fn law_numbers_are_read(digits: Seq<u8>, blank: u8, unit: u8)
    requires
        is_decimal(digits),
        digits[0] != 0x30 || digits.len() == 1,
        is_blank(blank),
        unit == 0x6b || unit == 0x4b || unit == 0x6d || unit == 0x4d || unit == 0x67 || unit == 0x47,
    ensures
        ({
            let n = decimal_value(digits) as int;
            let factor = if unit == 0x6b || unit == 0x4b {
                1024int
            } else if unit == 0x6d || unit == 0x4d {
                1024int * 1024
            } else {
                1024int * 1024 * 1024
            };
            &&& git_int(digits) == (if n <= i64::MAX {
                Some(n)
            } else {
                None
            })
            &&& git_int(seq![0x2du8] + digits) == (if n <= i64::MAX {
                Some(-n)
            } else {
                None
            })
            &&& git_int(seq![0x2bu8] + digits) == git_int(digits)
            &&& git_int(seq![blank] + digits) == git_int(digits)
            &&& git_int(digits.push(unit)) == (if n * factor <= i64::MAX {
                Some(n * factor)
            } else {
                None
            })
            &&& git_int(digits.push(unit).push(unit)) is None
            &&& git_int(Seq::empty()) is None
        }),
{
    let len = digits.len() as int;
    assert(is_digit(digits[0]));
    assert forall|j: int| 0 <= j < len implies digit_of(#[trigger] digits[j], 10) is Some by {
        assert(is_digit(digits[j]));
    }
    lemma_digit_run(digits, 10, len);
    assert(digits.take(len) =~= digits);
    assert(digits.skip(len) =~= Seq::<u8>::empty());
    lemma_decimal_number(digits);
    assert(unblanked(digits) == digits);
    assert(radix_split(digits) == (10int, digits));
    let value = decimal_value(digits) as int;
    assert(value * 1 == value);
    let minus = seq![0x2du8] + digits;
    assert(unblanked(minus) == minus);
    assert(minus.skip(1) =~= digits);
    let plus = seq![0x2bu8] + digits;
    assert(unblanked(plus) == plus);
    assert(plus.skip(1) =~= digits);
    let far = seq![blank] + digits;
    assert(far.drop_first() =~= digits);
    assert(unblanked(far) == digits);
    lemma_number_with_unit(digits, unit);
    let none = Seq::<u8>::empty();
    assert(unblanked(none) == none);
    assert(digit_run(none, 10) == 0);
}

/// A setting is on without a value and with a number other than zero, and
/// off with zero and with nothing behind its `=`; the words decide whatever
/// their case.
pub proof fn law_settings_are_switched(digits: Seq<u8>, a: Seq<u8>, b: Seq<u8>)
    requires
        is_decimal(digits),
        digits[0] != 0x30 || digits.len() == 1,
        decimal_value(digits) <= i64::MAX,
        same_ignoring_case(a, b),
    ensures
        is_on(None),
        is_on(Some(digits)) == (decimal_value(digits) != 0),
        !is_on(Some(Seq::empty())),
        a == encode_utf8("yes"@) || a == encode_utf8("on"@) || a == encode_utf8("true"@) ==> is_on(
            Some(b),
        ),
        a == encode_utf8("no"@) || a == encode_utf8("off"@) || a == encode_utf8("false"@)
            ==> !is_on(Some(b)),
        is_truthy(Some(a)) == is_truthy(Some(b)),
        a == encode_utf8("0"@) || a == encode_utf8("no"@) || a == encode_utf8("off"@) || a
            == encode_utf8("false"@) ==> !is_truthy(Some(b)),
        !is_truthy(None),
        !is_truthy(Some(Seq::empty())),
{
    law_numbers_are_read(digits, 0x20, 0x6b);
    lemma_number_is_no_word(digits);
    assert(lower_bytes(a).len() == a.len() && lower_bytes(b).len() == b.len());
    let none = Seq::<u8>::empty();
    reveal_strlit("yes");
    reveal_strlit("on");
    reveal_strlit("true");
    is_ascii_chars_encode_utf8("yes"@);
    is_ascii_chars_encode_utf8("on"@);
    is_ascii_chars_encode_utf8("true"@);
    assert(lower_bytes(none).len() == 0);
    assert(lower_bytes(encode_utf8("yes"@)).len() == 3);
    assert(lower_bytes(encode_utf8("on"@)).len() == 2);
    assert(lower_bytes(encode_utf8("true"@)).len() == 4);
    if a == encode_utf8("no"@) || a == encode_utf8("off"@) || a == encode_utf8("false"@) {
        lemma_off_words(b);
    }
}

proof fn lemma_number_is_no_word(digits: Seq<u8>)
    requires
        is_decimal(digits),
    ensures
        !spelled_like(digits, "yes"@),
        !spelled_like(digits, "on"@),
        !spelled_like(digits, "true"@),
{
    reveal_strlit("yes");
    reveal_strlit("on");
    reveal_strlit("true");
    is_ascii_chars_encode_utf8("yes"@);
    is_ascii_chars_encode_utf8("on"@);
    is_ascii_chars_encode_utf8("true"@);
    assert(is_digit(digits[0]));
    let low = lower_bytes(digits);
    assert(low[0] == digits[0]);
    let yes = lower_bytes(encode_utf8("yes"@));
    let on = lower_bytes(encode_utf8("on"@));
    let yea = lower_bytes(encode_utf8("true"@));
    assert(yes[0] != low[0]);
    assert(on[0] != low[0]);
    assert(yea[0] != low[0]);
}

/// A number without a sign and without a unit is what its digits say.
proof fn lemma_plain_number(a: Seq<u8>, radix: int, digits: Seq<u8>)
    requires
        a.len() > 0,
        !is_blank(a[0]),
        a[0] != 0x2d && a[0] != 0x2b,
        radix_split(a) == (radix, digits),
        radix >= 1,
        digits.len() > 0,
        forall|j: int| 0 <= j < digits.len() ==> digit_of(#[trigger] digits[j], radix) is Some,
    ensures
        git_int(a) == (if number(digits, radix) <= i64::MAX {
            Some(number(digits, radix))
        } else {
            None
        }),
        number(digits, radix) >= 0,
{
    let n = digits.len() as int;
    lemma_digit_run(digits, radix, n);
    lemma_number_grows(digits, radix, 0, n);
    assert(digits.take(n) =~= digits);
    assert(digits.take(0) =~= Seq::<u8>::empty());
    assert(digits.skip(n).len() == 0);
    assert(unblanked(a) == a);
    let value = number(digits, radix);
    assert(value * 1 == value);
}

/// What a number is written in: `0x` before it makes its digits hexadecimal,
/// a `0` octal, and nothing decimal; one more zero behind it makes it sixteen,
/// eight or ten times what it was, as far as that has a place.
pub proof fn law_radix_of_a_number(s: Seq<u8>, hex: u8)
    requires
        s.len() > 0,
        hex == 0x78 || hex == 0x58,
    ensures
        (forall|j: int| 0 <= j < s.len() ==> digit_of(#[trigger] s[j], 16) is Some) ==> (git_int(
            seq![0x30u8, hex] + s.push(0x30),
        ) matches Some(n) ==> n == 16 * git_int(seq![0x30u8, hex] + s)->0),
        (forall|j: int| 0 <= j < s.len() ==> 0x30 <= #[trigger] s[j] <= 0x37) ==> (git_int(
            seq![0x30u8] + s.push(0x30),
        ) matches Some(n) ==> n == 8 * git_int(seq![0x30u8] + s)->0),
        is_decimal(s) && s[0] != 0x30 ==> (git_int(s.push(0x30)) matches Some(n) ==> n == 10
            * git_int(s)->0),
{
    if forall|j: int| 0 <= j < s.len() ==> digit_of(#[trigger] s[j], 16) is Some {
        let more = s.push(0x30);
        assert forall|j: int| 0 <= j < more.len() implies digit_of(#[trigger] more[j], 16) is Some by {
            if j < s.len() {
                assert(digit_of(s[j], 16) is Some);
            }
        }
        let a = seq![0x30u8, hex] + s;
        let b = seq![0x30u8, hex] + more;
        assert(a.skip(2) =~= s && b.skip(2) =~= more);
        lemma_plain_number(a, 16, s);
        lemma_plain_number(b, 16, more);
        assert(more.drop_last() =~= s);
        assert(number(more, 16) == 16 * number(s, 16));
    }
    if forall|j: int| 0 <= j < s.len() ==> 0x30 <= #[trigger] s[j] <= 0x37 {
        let a = seq![0x30u8] + s;
        let b = seq![0x30u8] + s.push(0x30);
        assert forall|j: int| 0 <= j < a.len() implies digit_of(#[trigger] a[j], 8) is Some by {
            if j > 0 {
                assert(a[j] == s[j - 1]);
            }
        }
        assert forall|j: int| 0 <= j < b.len() implies digit_of(#[trigger] b[j], 8) is Some by {
            if 0 < j <= s.len() {
                assert(b[j] == s[j - 1]);
            }
        }
        assert(0x30 <= s[0] <= 0x37);
        assert(a[1] == s[0]);
        assert(b[1] == s[0]);
        lemma_plain_number(a, 8, a);
        lemma_plain_number(b, 8, b);
        assert(b.drop_last() =~= a);
        assert(number(b, 8) == 8 * number(a, 8));
    }
    if is_decimal(s) && s[0] != 0x30 {
        let more = s.push(0x30);
        assert(is_decimal(more)) by {
            assert forall|i: int| 0 <= i < more.len() implies is_digit(#[trigger] more[i]) by {
                if i < s.len() {
                    assert(is_digit(s[i]));
                }
            }
        }
        assert(more[0] == s[0]);
        assert(more.drop_last() =~= s);
        law_numbers_are_read(s, 0x20, 0x6b);
        law_numbers_are_read(more, 0x20, 0x6b);
    }
}

/// A hexadecimal digit stands for what it does, in either case.
pub proof fn law_hexadecimal_digits(d: u8, hex: u8)
    requires
        hex == 0x78 || hex == 0x58,
    ensures
        0x30 <= d <= 0x39 ==> git_int(seq![0x30u8, hex] + seq![d]) == Some(d - 0x30),
        0x61 <= d <= 0x66 ==> git_int(seq![0x30u8, hex] + seq![d]) == Some(10 + d - 0x61),
        0x41 <= d <= 0x46 ==> git_int(seq![0x30u8, hex] + seq![d]) == Some(10 + d - 0x41),
{
    if digit_of(d, 16) is Some {
        let s = seq![d];
        let a = seq![0x30u8, hex] + s;
        assert(a.skip(2) =~= s);
        lemma_plain_number(a, 16, s);
        assert(s.drop_last() =~= Seq::<u8>::empty());
        assert(number(s.drop_last(), 16) == 0);
        assert(s.last() == d);
        assert(number(s, 16) == digit_of(d, 16)->0);
    }
}

} // verus!
