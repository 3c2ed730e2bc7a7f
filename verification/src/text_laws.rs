//! What the texts of the window say.
use vstd::prelude::*;
use vstd::arithmetic::power2::pow2;
use vstd::utf8::{decode_first_scalar, decode_utf8, pop_first_scalar, valid_first_scalar, valid_utf8};
use crate::below::shows_sum;
use crate::i18n::{detail_of, in_english, message_with_words, Language, HOLE, MESSAGES};
use crate::labels::{bytes_in_unit, clock_text, day_number, day_text, days_before_month, drive_names, fitting_unit, float_step, half_even, is_day, leap_year, month_length, nearest_float, size_text, two_digits, UNITS};
use crate::mft::drive_root;
use crate::raw::{lossy, raw_units};
use crate::text::{decode_utf16, digits, encode_char, encode_utf16, find_from, find_from_finds, replace_from, stands_at, trimmed, white_space};
use crate::updates::{pause_after, time_sum, Due, Updates};

verus! {

/// The number that decimal digits spell.
pub open spec fn spelt_number(text: Seq<char>) -> int
    decreases text.len(),
{
    if text.len() == 0 {
        0
    } else {
        10 * spelt_number(text.drop_last()) + (text.last() as int - 48)
    }
}

/// A number is written with decimal digits that spell it, without a leading zero.
pub proof fn digits_spell_their_number(n: int)
    requires
        0 <= n,
    ensures
        spelt_number(digits(n)) == n,
        digits(n).len() > 0,
        forall|i: int| 0 <= i < digits(n).len() ==> 48 <= (#[trigger] digits(n)[i]) as int <= 57,
        digits(n).len() > 1 ==> digits(n)[0] as int > 48,
        n < 10 ==> digits(n).len() == 1,
    decreases n,
{
    let last = ((48 + n % 10) as u8) as char;
    let s = digits(n);
    if n < 10 {
        assert(s =~= seq![last]);
        assert(s.drop_last() =~= Seq::<char>::empty());
        assert(spelt_number(s.drop_last()) == 0);
    } else {
        digits_spell_their_number(n / 10);
        let rest = digits(n / 10);
        assert(s.drop_last() =~= rest);
        assert forall|i: int| 0 <= i < s.len() implies 48 <= (#[trigger] s[i]) as int <= 57 by {
            if i < rest.len() {
                assert(s[i] == rest[i]);
            }
        }
        assert(s[0] == rest[0]);
        if rest.len() == 1 {
            assert(rest[0] as int == 48 + n / 10) by {
                assert(rest.drop_last() =~= Seq::<char>::empty());
                assert(spelt_number(rest.drop_last()) == 0);
                assert(rest.last() == rest[0]);
            }
        }
    }
}

/// Whether a character is white space.
#[verifier::opaque]
pub open spec fn is_blank(c: char) -> bool {
    let n = c as int;
    ||| n == 0x9 || n == 0xa || n == 0xb || n == 0xc || n == 0xd || n == 0x20 || n == 0x85 || n == 0xa0
    ||| n == 0x1680 || n == 0x2000 || n == 0x2001 || n == 0x2002 || n == 0x2003 || n == 0x2004
    ||| n == 0x2005 || n == 0x2006 || n == 0x2007 || n == 0x2008 || n == 0x2009 || n == 0x200a
    ||| n == 0x2028 || n == 0x2029 || n == 0x202f || n == 0x205f || n == 0x3000
}

proof fn blanks_are_white_space(c: char)
    ensures
        is_blank(c) == white_space(c),
{
    reveal(is_blank);
}

/// Whether a text is another without the white space at its two ends, `from` characters
/// from its start on.
pub open spec fn is_trimmed_from(r: Seq<char>, s: Seq<char>, from: int) -> bool {
    &&& 0 <= from
    &&& from + r.len() <= s.len()
    &&& r == s.subrange(from, from + r.len())
    &&& forall|i: int| 0 <= i < from ==> is_blank(#[trigger] s[i])
    &&& forall|i: int| from + r.len() <= i < s.len() ==> is_blank(#[trigger] s[i])
    &&& r.len() > 0 ==> !is_blank(r[0]) && !is_blank(r.last())
}

proof fn a_blank_in_front(s: Seq<char>, r: Seq<char>, from: int)
    requires
        s.len() > 0,
        is_blank(s[0]),
        is_trimmed_from(r, s.skip(1), from),
    ensures
        is_trimmed_from(r, s, from + 1),
{
    let rest = s.skip(1);
    assert(r =~= s.subrange(from + 1, from + 1 + r.len()));
    assert forall|i: int| 0 <= i < from + 1 implies is_blank(#[trigger] s[i]) by {
        if i > 0 {
            assert(rest[i - 1] == s[i]);
        }
    }
    assert forall|i: int| from + 1 + r.len() <= i < s.len() implies is_blank(#[trigger] s[i]) by {
        assert(rest[i - 1] == s[i]);
    }
}

proof fn a_blank_behind(s: Seq<char>, r: Seq<char>, from: int)
    requires
        s.len() > 0,
        is_blank(s.last()),
        is_trimmed_from(r, s.drop_last(), from),
    ensures
        is_trimmed_from(r, s, from),
{
    let rest = s.drop_last();
    assert(r =~= s.subrange(from, from + r.len()));
    assert forall|i: int| 0 <= i < from implies is_blank(#[trigger] s[i]) by {
        assert(rest[i] == s[i]);
    }
    assert forall|i: int| from + r.len() <= i < s.len() implies is_blank(#[trigger] s[i]) by {
        if i < s.len() - 1 {
            assert(rest[i] == s[i]);
        }
    }
}

/// A trimmed text is what stands between the white space at both ends.
pub proof fn trimming_takes_the_white_space(s: Seq<char>) -> (from: int)
    ensures
        is_trimmed_from(trimmed(s), s, from),
    decreases s.len(),
{
    if s.len() == 0 {
        assert(s =~= s.subrange(0, s.len() as int));
        0
    } else {
        blanks_are_white_space(s[0]);
        blanks_are_white_space(s.last());
        if is_blank(s[0]) {
            let from = trimming_takes_the_white_space(s.skip(1));
            a_blank_in_front(s, trimmed(s.skip(1)), from);
            from + 1
        } else if is_blank(s.last()) {
            let from = trimming_takes_the_white_space(s.drop_last());
            a_blank_behind(s, trimmed(s.drop_last()), from);
            from
        } else {
            assert(s =~= s.subrange(0, s.len() as int));
            0
        }
    }
}

/// A character below 0x10000 is one unit; any other is a pair of surrogates that hold
/// its upper and lower ten bits beyond 0x10000.
pub proof fn characters_are_units(c: char)
    ensures
        ({
            let u = encode_char(c);
            let n = c as int;
            if n < 0x1_0000 {
                u.len() == 1 && u[0] == n
            } else {
                u.len() == 2 && 0xd800 <= u[0] < 0xdc00 && 0xdc00 <= u[1] < 0xe000 && n == 0x1_0000
                    + (u[0] - 0xd800) * 0x400 + (u[1] - 0xdc00)
            }
        }),
{
    crate::text::char_is_scalar(c);
}

/// Units are read one by one: a unit that is no surrogate is a character by itself, a
/// high surrogate with a low one behind it is one character, and any other surrogate
/// shows as the replacement character.
pub proof fn units_are_read_as_characters(units: Seq<u16>, rest: Seq<u16>)
    ensures
        decode_utf16(seq![]) == Seq::<char>::empty(),
        units.len() == 1 && (units[0] < 0xd800 || units[0] >= 0xe000) ==> decode_utf16(units + rest)
            == seq![units[0] as char] + decode_utf16(rest),
        units.len() == 2 && 0xd800 <= units[0] < 0xdc00 && 0xdc00 <= units[1] < 0xe000
            ==> decode_utf16(units + rest) == seq![
            (0x1_0000 + (units[0] - 0xd800) * 0x400 + (units[1] - 0xdc00)) as char,
        ] + decode_utf16(rest),
        units.len() == 1 && 0xdc00 <= units[0] < 0xe000 ==> decode_utf16(units + rest) == seq![
            '\u{FFFD}',
        ] + decode_utf16(rest),
        units.len() == 1 && 0xd800 <= units[0] < 0xdc00 && (rest.len() == 0 || rest[0] < 0xdc00
            || rest[0] >= 0xe000) ==> decode_utf16(units + rest) == seq!['\u{FFFD}']
            + decode_utf16(rest),
{
    let all = units + rest;
    if units.len() == 1 {
        assert(all.skip(1) =~= rest);
    }
    if units.len() == 2 {
        assert(all.skip(2) =~= rest);
    }
}

/// A drive's root is a letter, a colon and a separator, and is told with a capital
/// letter and a backslash; no other path is one.
pub proof fn drive_roots_are_letters(path: Seq<char>)
    ensures
        drive_root(path) is Some <==> path.len() == 3 && path[1] == ':' && (path[2] == '\\'
            || path[2] == '/') && (('a' <= path[0] && path[0] <= 'z') || ('A' <= path[0] && path[0]
            <= 'Z')),
        drive_root(path) matches Some(root) ==> root.len() == 3 && 'A' <= root[0] && root[0] <= 'Z'
            && (root[0] == path[0] || root[0] as int + 32 == path[0] as int) && root[1] == ':'
            && root[2] == '\\',
{
}

/// How far two numbers are apart.
pub open spec fn apart(a: int, b: int) -> int {
    if a < b {
        b - a
    } else {
        a - b
    }
}

proof fn rounding_finds_the_nearest(n: int, d: int)
    requires
        0 <= n,
        0 < d,
    ensures
        2 * apart(half_even(n, d) * d, n) <= d,
        2 * apart(half_even(n, d) * d, n) == d ==> half_even(n, d) % 2 == 0,
        d == 1 ==> half_even(n, d) == n,
        half_even(n, d) >= 0,
{
    let q = n / d;
    vstd::arithmetic::div_mod::lemma_fundamental_div_mod(n, d);
    assert(q * d == d * q && (q + 1) * d == d * q + d) by (nonlinear_arith);
    assert(0 <= n % d < d && q >= 0) by (nonlinear_arith)
        requires
            0 <= n,
            0 < d,
            q == n / d,
    ;
    if d == 1 {
        assert(q * 1 == q);
    }
}

proof fn steps_keep_53_bits(n: int, step: int)
    requires
        0 <= n,
        1 <= step,
    ensures
        float_step(n, step) >= step,
        n < 0x20_0000_0000_0000 * float_step(n, step),
        float_step(n, step) == step || n >= 0x10_0000_0000_0000 * float_step(n, step),
    decreases n - step,
{
    if n >= 0x20_0000_0000_0000 * step {
        steps_keep_53_bits(n, 2 * step);
    }
}

/// The size that is shown is the number of bytes with 53 significant bits: exact below
/// 2 to the 53, and nowhere further off than one part in that.
pub proof fn shown_sizes_are_near(bytes: int)
    requires
        0 <= bytes,
    ensures
        bytes < 0x20_0000_0000_0000 ==> nearest_float(bytes) == bytes,
        apart(nearest_float(bytes), bytes) * 0x20_0000_0000_0000 <= bytes,
        nearest_float(bytes) >= 0,
{
    let step = float_step(bytes, 1);
    steps_keep_53_bits(bytes, 1);
    rounding_finds_the_nearest(bytes, step);
    if step == 1 {
        assert(bytes * 1 == bytes);
    }
    let f = half_even(bytes, step) * step;
    assert(f >= 0) by (nonlinear_arith)
        requires
            f == half_even(bytes, step) * step,
            half_even(bytes, step) >= 0,
            step >= 1,
    ;
}

/// Bytes in a unit: 1024 of the one before.
pub open spec fn unit_size(u: int) -> int {
    if u == 0 {
        1
    } else if u == 1 {
        1_024
    } else if u == 2 {
        1_048_576
    } else if u == 3 {
        1_073_741_824
    } else if u == 4 {
        1_099_511_627_776
    } else {
        1_125_899_906_842_624
    }
}

/// The name of a unit.
pub open spec fn unit_name(u: int) -> Seq<char> {
    if u == 0 {
        "B"@
    } else if u == 1 {
        "KiB"@
    } else if u == 2 {
        "MiB"@
    } else if u == 3 {
        "GiB"@
    } else if u == 4 {
        "TiB"@
    } else {
        "PiB"@
    }
}

proof fn units_grow(i: nat)
    requires
        i <= 5,
    ensures
        bytes_in_unit(i) == unit_size(i as int),
    decreases i,
{
    if i > 0 {
        units_grow((i - 1) as nat);
    }
}

proof fn the_unit_fits(n: int, i: nat)
    requires
        i <= 5,
        i > 0 ==> n >= unit_size(i as int),
    ensures
        ({
            let u = fitting_unit(n, i) as int;
            &&& i <= u <= 5
            &&& u > 0 ==> n >= unit_size(u)
            &&& u < 5 ==> n < unit_size(u + 1)
        }),
    decreases 5 - i,
{
    if i < 5 {
        units_grow(i + 1);
        if n >= unit_size((i + 1) as int) {
            the_unit_fits(n, i + 1);
        }
    }
}

/// A size is shown in the largest unit of which there is at least one, to the nearest
/// tenth, of two equally near the even one: whole units, a point, tenths, and the name
/// of the unit.
pub proof fn sizes_are_shown_in_their_unit(bytes: int) -> (r: (int, int))
    requires
        0 <= bytes <= u64::MAX,
    ensures
        ({
            let (unit, tenths) = r;
            let n = nearest_float(bytes);
            &&& 0 <= unit <= 5
            &&& unit > 0 ==> n >= unit_size(unit)
            &&& unit < 5 ==> n < unit_size(unit + 1)
            &&& 2 * apart(tenths * unit_size(unit), 10 * n) <= unit_size(unit)
            &&& 2 * apart(tenths * unit_size(unit), 10 * n) == unit_size(unit) ==> tenths % 2 == 0
            &&& size_text(bytes) == digits(tenths / 10) + "."@ + digits(tenths % 10) + " "@
                + unit_name(unit)
        }),
{
    let n = nearest_float(bytes);
    shown_sizes_are_near(bytes);
    the_unit_fits(n, 0);
    let unit = fitting_unit(n, 0);
    units_grow(unit);
    let tenths = half_even(n * 10, unit_size(unit as int));
    rounding_finds_the_nearest(n * 10, unit_size(unit as int));
    assert(UNITS@.len() == 6);
    assert(UNITS[unit as int]@ == unit_name(unit as int));
    (unit as int, tenths)
}

/// The months have 31 days, or 30, or in February 28, or 29 in every fourth year but in
/// three of four hundreds.
pub proof fn months_have_their_days(year: int, month: int)
    requires
        1 <= month <= 12,
    ensures
        month == 1 || month == 3 || month == 5 || month == 7 || month == 8 || month == 10 || month
            == 12 ==> month_length(year, month) == 31,
        month == 4 || month == 6 || month == 9 || month == 11 ==> month_length(year, month) == 30,
        month == 2 && year % 400 == 0 ==> month_length(year, month) == 29,
        month == 2 && year % 100 == 0 && year % 400 != 0 ==> month_length(year, month) == 28,
        month == 2 && year % 4 == 0 && year % 100 != 0 ==> month_length(year, month) == 29,
        month == 2 && year % 4 != 0 ==> month_length(year, month) == 28,
{
}

proof fn years_have_their_days(year: int)
    ensures
        days_before_month(year, 12) + 31 == if leap_year(year) {
            366int
        } else {
            365
        },
{
    assert(days_before_month(year, 1) == 0);
    assert(days_before_month(year, 2) == 31);
    assert(days_before_month(year, 3) == 31 + month_length(year, 2));
    assert(days_before_month(year, 4) == 62 + month_length(year, 2));
    assert(days_before_month(year, 5) == 92 + month_length(year, 2));
    assert(days_before_month(year, 6) == 123 + month_length(year, 2));
    assert(days_before_month(year, 7) == 153 + month_length(year, 2));
    assert(days_before_month(year, 8) == 184 + month_length(year, 2));
    assert(days_before_month(year, 9) == 215 + month_length(year, 2));
    assert(days_before_month(year, 10) == 245 + month_length(year, 2));
    assert(days_before_month(year, 11) == 276 + month_length(year, 2));
    assert(days_before_month(year, 12) == 306 + month_length(year, 2));
}

proof fn every_fourth(year: int)
    ensures
        year / 4 - (year - 1) / 4 == if year % 4 == 0 {
            1int
        } else {
            0
        },
{
}

proof fn every_hundredth(year: int)
    ensures
        year / 100 - (year - 1) / 100 == if year % 100 == 0 {
            1int
        } else {
            0
        },
{
}

proof fn every_four_hundredth(year: int)
    ensures
        year / 400 - (year - 1) / 400 == if year % 400 == 0 {
            1int
        } else {
            0
        },
{
}

#[verifier::spinoff_prover]
proof fn leap_days_come_with_leap_years(year: int)
    ensures
        (year / 4 - year / 100 + year / 400) - ((year - 1) / 4 - (year - 1) / 100 + (year - 1)
            / 400) == if leap_year(year) {
            1int
        } else {
            0
        },
{
    every_fourth(year);
    every_hundredth(year);
    every_four_hundredth(year);
    assert(year % 400 == 0 ==> year % 100 == 0);
    assert(year % 100 == 0 ==> year % 4 == 0);
}

/// Days are counted one by one from 1970-01-01 on, through the ends of months and years.
pub proof fn days_follow_each_other(year: int, month: int, day: int)
    requires
        is_day(year, month, day),
    ensures
        day_number(1970, 1, 1) == 0,
        day < month_length(year, month) ==> day_number(year, month, day + 1) == day_number(
            year,
            month,
            day,
        ) + 1,
        day == month_length(year, month) && month < 12 ==> day_number(year, month + 1, 1)
            == day_number(year, month, day) + 1,
        day == month_length(year, month) && month == 12 ==> day_number(year + 1, 1, 1)
            == day_number(year, month, day) + 1,
{
    years_have_their_days(year);
    leap_days_come_with_leap_years(year);
    assert(days_before_month(year + 1, 1) == 0);
    assert(days_before_month(1970, 1) == 0);
}

/// A number below a hundred is written with two digits.
pub proof fn two_digits_are_two(n: int)
    requires
        0 <= n < 100,
    ensures
        two_digits(n).len() == 2,
        spelt_number(two_digits(n)) == n,
{
    digits_spell_their_number(n / 10);
    digits_spell_their_number(n % 10);
    let a = digits(n / 10);
    let b = digits(n % 10);
    let s = two_digits(n);
    assert(a.len() == 1 && b.len() == 1);
    assert(s.drop_last() =~= a);
    assert(s.last() == b[0]);
    assert(b.drop_last() =~= Seq::<char>::empty());
    assert(spelt_number(b) == b[0] as int - 48) by {
        assert(spelt_number(b.drop_last()) == 0);
        assert(b.last() == b[0]);
    }
}

/// Whether bit `k` of a mask is set.
pub open spec fn has_bit(mask: u32, k: nat) -> bool {
    mask as nat / pow2(k) % 2 == 1
}

proof fn masks_tell_bits(mask: u32, k: u32)
    requires
        k < 26,
    ensures
        mask & (1u32 << k) != 0 <==> has_bit(mask, k as nat),
{
    assert(mask & (1u32 << k) != 0 <==> (mask >> k) % 2 == 1) by (bit_vector)
        requires
            k < 26,
    ;
    vstd::bits::lemma_u32_shr_is_div(mask, k);
}

/// The root of the `k`th drive.
pub open spec fn drive_letter(k: int) -> Seq<char> {
    seq![(65 + k) as char, ':', '\\']
}

/// The drives are those whose bit is set, the first letter first.
pub proof fn drives_are_those_of_the_mask(mask: u32, n: int)
    requires
        0 <= n <= 26,
    ensures
        forall|k: int|
            0 <= k < n ==> (drive_names(mask, n).contains(#[trigger] drive_letter(k)) <==> has_bit(
                mask,
                k as nat,
            )),
        forall|i: int|
            0 <= i < drive_names(mask, n).len() ==> exists|k: int|
                0 <= k < n && (#[trigger] drive_names(mask, n)[i]) == #[trigger] drive_letter(k),
        forall|i: int, j: int|
            0 <= i < j < drive_names(mask, n).len() ==> (drive_names(mask, n)[i][0] as int) < (
            drive_names(mask, n)[j][0] as int),
    decreases n,
{
    if n > 0 {
        drives_are_those_of_the_mask(mask, n - 1);
        masks_tell_bits(mask, (n - 1) as u32);
        let rest = drive_names(mask, n - 1);
        let all = drive_names(mask, n);
        let last = drive_letter(n - 1);
        assert(seq![(64 + n) as char, ':', '\\'] =~= last);
        assert forall|i: int| 0 <= i < rest.len() implies (#[trigger] rest[i])[0] as int >= 65
            && rest[i][0] as int <= 63 + n by {
            let k = choose|k: int| 0 <= k < n - 1 && rest[i] == #[trigger] drive_letter(k);
            assert(drive_letter(k)[0] as int == 65 + k);
        }
        assert forall|k: int| 0 <= k < n implies (all.contains(#[trigger] drive_letter(k)) <==> has_bit(
            mask,
            k as nat,
        )) by {
            if k < n - 1 {
                assert(rest.contains(drive_letter(k)) <==> has_bit(mask, k as nat));
                if rest.contains(drive_letter(k)) {
                    let i = choose|i: int| 0 <= i < rest.len() && rest[i] == drive_letter(k);
                    assert(all[i] == drive_letter(k));
                }
                if all.contains(drive_letter(k)) {
                    let i = choose|i: int| 0 <= i < all.len() && all[i] == drive_letter(k);
                    assert(drive_letter(k)[0] as int == 65 + k);
                    assert(last[0] as int == 64 + n);
                    assert(rest[i] == drive_letter(k));
                }
            } else {
                if has_bit(mask, k as nat) {
                    assert(all[rest.len() as int] == last);
                } else if all.contains(last) {
                    let i = choose|i: int| 0 <= i < all.len() && all[i] == last;
                    assert(rest[i][0] as int <= 63 + n);
                    assert(last[0] as int == 64 + n);
                }
            }
        }
        assert forall|i: int| 0 <= i < all.len() implies exists|k: int|
            0 <= k < n && (#[trigger] all[i]) == #[trigger] drive_letter(k) by {
            if i < rest.len() {
                let k = choose|k: int| 0 <= k < n - 1 && rest[i] == #[trigger] drive_letter(k);
                assert(all[i] == drive_letter(k));
            } else {
                assert(all[i] == last);
            }
        }
    }
}

/// The pause after a preview is a second, or twenty times as long as the preview took
/// where that is more; times stop at the end of the clock.
pub proof fn pauses_are_long_enough(started: u64, finished: u64, a: u64, b: u64)
    ensures
        started > finished ==> pause_after(started, finished) == 1_000_000_000,
        started <= finished && 20 * (finished - started) <= 1_000_000_000 ==> pause_after(
            started,
            finished,
        ) == 1_000_000_000,
        started <= finished && 20 * (finished - started) > 1_000_000_000 ==> pause_after(
            started,
            finished,
        ) == 20 * (finished - started),
        shows_sum(time_sum(a as int, b as int), a + b),
{
}

/// A preview is due once its time has come and there is something to show; else the
/// progress is, a tenth of a second after anything was told.
pub proof fn updates_come_in_time(u: Updates, now: u64, bytes: u64)
    ensures
        u.due_at(now, bytes) == Due::Preview <==> now >= u.preview_at && bytes > 0,
        u.due_at(now, bytes) == Due::Progress <==> !(now >= u.preview_at && bytes > 0) && now
            >= u.progress_at + 100_000_000,
{
}

proof fn searching_from_the_middle(s: Seq<char>, pattern: Seq<char>, from: int)
    requires
        0 <= from <= s.len(),
    ensures
        match (find_from(s, pattern, from), find_from(s.skip(from), pattern, 0)) {
            (None, None) => true,
            (Some(a), Some(b)) => a == from + b,
            _ => false,
        },
{
    let rest = s.skip(from);
    find_from_finds(s, pattern, from);
    find_from_finds(rest, pattern, 0);
    assert forall|k: int| 0 <= k implies #[trigger] stands_at(rest, pattern, k) == stands_at(
        s,
        pattern,
        from + k,
    ) by {
        if k + pattern.len() <= rest.len() {
            assert(rest.subrange(k, k + pattern.len()) =~= s.subrange(
                from + k,
                from + k + pattern.len(),
            ));
        }
    }
    if let Some(a) = find_from(s, pattern, from) {
        assert(stands_at(rest, pattern, a - from));
    }
    if let Some(b) = find_from(rest, pattern, 0) {
        assert(stands_at(s, pattern, from + b));
        if let Some(a) = find_from(s, pattern, from) {
            if a < from + b {
                assert(stands_at(rest, pattern, a - from));
            }
        }
    }
}

proof fn replacing_from_the_middle(s: Seq<char>, pattern: Seq<char>, with: Seq<char>, from: int)
    requires
        0 <= from <= s.len(),
        pattern.len() > 0,
    ensures
        replace_from(s, pattern, with, from) == replace_from(s.skip(from), pattern, with, 0),
    decreases s.len() - from,
{
    let rest = s.skip(from);
    searching_from_the_middle(s, pattern, from);
    find_from_finds(s, pattern, from);
    match find_from(s, pattern, from) {
        None => {
            assert(rest.skip(0) =~= rest);
        },
        Some(at) => {
            let next = at + pattern.len();
            replacing_from_the_middle(s, pattern, with, next);
            replacing_from_the_middle(rest, pattern, with, next - from);
            assert(rest.skip(next - from) =~= s.skip(next));
            assert(rest.subrange(0, at - from) =~= s.subrange(from, at));
        },
    }
}

/// Every place of a pattern is replaced: the first one and then those behind it, while
/// what stands between stays. A text without the pattern stays as it is.
pub proof fn every_place_is_replaced(
    before: Seq<char>,
    pattern: Seq<char>,
    after: Seq<char>,
    with: Seq<char>,
)
    requires
        pattern.len() > 0,
    ensures
        ({
            let s = before + pattern + after;
            (forall|k: int| 0 <= k < before.len() ==> !#[trigger] stands_at(s, pattern, k))
                ==> replace_from(s, pattern, with, 0) == before + with + replace_from(
                after,
                pattern,
                with,
                0,
            )
        }),
        (forall|k: int| !#[trigger] stands_at(before, pattern, k)) ==> replace_from(
            before,
            pattern,
            with,
            0,
        ) == before,
{
    let s = before + pattern + after;
    let at = before.len() as int;
    if forall|k: int| 0 <= k < before.len() ==> !#[trigger] stands_at(s, pattern, k) {
        find_from_finds(s, pattern, 0);
        assert(s.subrange(at, at + pattern.len()) =~= pattern);
        assert(stands_at(s, pattern, at));
        assert(find_from(s, pattern, 0) == Some(at));
        replacing_from_the_middle(s, pattern, with, at + pattern.len());
        assert(s.skip(at + pattern.len()) =~= after);
        assert(s.subrange(0, at) =~= before);
    }
    if forall|k: int| !#[trigger] stands_at(before, pattern, k) {
        find_from_finds(before, pattern, 0);
        assert(before.skip(0) =~= before);
    }
}

/// The part of a message that varies is what stands between the words before and
/// behind the hole of its template.
pub proof fn details_stand_in_the_hole(template: Seq<char>, value: Seq<char>, before: Seq<char>, behind: Seq<char>)
    requires
        template == before + HOLE@ + behind,
        forall|k: int| 0 <= k < before.len() ==> !#[trigger] stands_at(template, HOLE@, k),
    ensures
        detail_of(template, value) matches Some(detail) ==> value == before + detail + behind,
        forall|detail: Seq<char>| #![trigger before + detail]
            value == before + detail + behind && before.len() + behind.len() > 0 ==> detail_of(
                template,
                value,
            ) == Some(detail),
{
    let at = before.len() as int;
    reveal_strlit("{detail}");
    find_from_finds(template, HOLE@, 0);
    assert(template.subrange(at, at + HOLE@.len()) =~= HOLE@);
    assert(stands_at(template, HOLE@, at));
    assert(find_from(template, HOLE@, 0) == Some(at));
    assert(template.take(at) =~= before);
    assert(template.skip(at + HOLE@.len()) =~= behind);
    if let Some(detail) = detail_of(template, value) {
        assert(value =~= before + detail + behind) by {
            let end = value.len() - behind.len();
            assert(value.subrange(0, 0 + before.len() as int) =~= before);
            assert(value.subrange(end, end + behind.len()) =~= behind);
            assert forall|i: int| 0 <= i < value.len() implies value[i] == (before + detail
                + behind)[i] by {
                if i < before.len() {
                    assert(value.subrange(0, 0 + before.len() as int)[i] == before[i]);
                } else if i >= end {
                    assert(value.subrange(end, end + behind.len())[i - end] == behind[i - end]);
                }
            }
        }
    }
    assert forall|detail: Seq<char>|
        #![trigger before + detail]
        value == before + detail + behind && before.len() + behind.len() > 0 implies detail_of(
        template,
        value,
    ) == Some(detail) by {
        let end = value.len() - behind.len();
        assert(value.subrange(0, 0 + before.len() as int) =~= before);
        assert(value.subrange(end, end + behind.len()) =~= behind);
        assert(value.subrange(before.len() as int, end) =~= detail);
    }
}

/// A known message is told in its own English words; what is neither a message nor
/// fits a template is told as it is.
pub proof fn known_messages_have_their_words(value: Seq<char>, i: int)
    requires
        0 <= i <= MESSAGES@.len(),
    ensures
        i < MESSAGES@.len() && MESSAGES@[i].0@ == value && (forall|k: int|
            0 <= k < i ==> (#[trigger] MESSAGES@[k]).0@ != value) ==> in_english(value)
            == MESSAGES@[i].1@,
        (forall|k: int|
            0 <= k < MESSAGES@.len() ==> (#[trigger] MESSAGES@[k]).0@ != value && detail_of(
                MESSAGES@[k].0@,
                value,
            ) is None) ==> in_english(value) == value,
{
    the_first_message(value, 0);
    if crate::i18n::message_with_detail(value, 0) is Some {
        the_first_template(value, 0);
    }
}

proof fn the_first_message(value: Seq<char>, from: int)
    requires
        0 <= from <= MESSAGES@.len(),
    ensures
        match message_with_words(value, from) {
            Some(i) => from <= i < MESSAGES@.len() && MESSAGES@[i].0@ == value && forall|k: int|
                from <= k < i ==> (#[trigger] MESSAGES@[k]).0@ != value,
            None => forall|k: int|
                from <= k < MESSAGES@.len() ==> (#[trigger] MESSAGES@[k]).0@ != value,
        },
    decreases MESSAGES@.len() - from,
{
    if from < MESSAGES@.len() && MESSAGES@[from].0@ != value {
        the_first_message(value, from + 1);
    }
}

proof fn the_first_template(value: Seq<char>, from: int)
    requires
        0 <= from <= MESSAGES@.len(),
    ensures
        match crate::i18n::message_with_detail(value, from) {
            Some(i) => from <= i < MESSAGES@.len() && detail_of(MESSAGES@[i].0@, value) is Some,
            None => true,
        },
    decreases MESSAGES@.len() - from,
{
    if from < MESSAGES@.len() && detail_of(MESSAGES@[from].0@, value) is None {
        the_first_template(value, from + 1);
    }
}

/// A second of a day is told as hours, minutes and seconds in two digits each.
pub proof fn clocks_tell_the_second(second: int)
    requires
        0 <= second < 86_400,
    ensures
        ({
            let t = clock_text(second);
            &&& t.len() == 8
            &&& t[2] == ':' && t[5] == ':'
            &&& spelt_number(t.subrange(0, 2)) * 3_600 + spelt_number(t.subrange(3, 5)) * 60
                + spelt_number(t.subrange(6, 8)) == second
            &&& spelt_number(t.subrange(3, 5)) < 60
            &&& spelt_number(t.subrange(6, 8)) < 60
        }),
{
    reveal_strlit(":");
    let h = second / 3600;
    let m = second / 60 % 60;
    let s = second % 60;
    two_digits_are_two(h);
    two_digits_are_two(m);
    two_digits_are_two(s);
    let t = clock_text(second);
    assert(t.subrange(0, 2) =~= two_digits(h));
    assert(t.subrange(3, 5) =~= two_digits(m));
    assert(t.subrange(6, 8) =~= two_digits(s));
    assert(h * 3600 + m * 60 + s == second);
}

/// A day of a year with four digits is told as year, month and day.
pub proof fn days_tell_their_date(year: int, month: int, day: int)
    requires
        1_000 <= year <= 9_999,
        0 <= month < 100,
        0 <= day < 100,
    ensures
        ({
            let t = day_text(year, month, day);
            let n = t.len() as int;
            &&& n > 6
            &&& t[n - 6] == '-' && t[n - 3] == '-'
            &&& spelt_number(t.subrange(0, n - 6)) == year
            &&& spelt_number(t.subrange(n - 5, n - 3)) == month
            &&& spelt_number(t.subrange(n - 2, n)) == day
        }),
{
    reveal_strlit("-");
    digits_spell_their_number(year);
    two_digits_are_two(month);
    two_digits_are_two(day);
    let t = day_text(year, month, day);
    let n = t.len() as int;
    assert(t.subrange(0, n - 6) =~= digits(year));
    assert(t.subrange(n - 5, n - 3) =~= two_digits(month));
    assert(t.subrange(n - 2, n) =~= two_digits(day));
}

/// A saved language is read as the one that was saved.
pub proof fn languages_survive(language: Language)
    ensures
        trimmed(language.code_text()) == "en"@ <==> language == Language::English,
        trimmed(language.code_text()) == language.code_text(),
{
    reveal_strlit("en");
    reveal_strlit("ko");
    assert("en"@[0] != "ko"@[0]);
}

/// Bytes of a path that are UTF-8 are kept as the UTF-16 of their text; a byte that
/// starts no character is kept apart, behind 0xdc00, where no text has a unit.
pub proof fn raw_paths_are_kept_as_units(bytes: Seq<u8>)
    ensures
        valid_utf8(bytes) ==> raw_units(bytes) == encode_utf16(decode_utf8(bytes)),
        bytes.len() > 0 && !valid_first_scalar(bytes) ==> raw_units(bytes) == seq![
            (0xdc00 + bytes[0]) as u16,
        ] + raw_units(bytes.skip(1)),
    decreases bytes.len(),
{
    if valid_utf8(bytes) && bytes.len() > 0 {
        let rest = pop_first_scalar(bytes);
        raw_paths_are_kept_as_units(rest);
        crate::raw::scalars_are_in_range(bytes);
        let c = decode_first_scalar(bytes) as char;
        let text = decode_utf8(bytes);
        assert(text == seq![c] + decode_utf8(rest));
        assert(text.skip(1) =~= decode_utf8(rest));
        assert(text[0] == c);
        assert(c as int == decode_first_scalar(bytes));
        assert(encode_char(c) == crate::raw::scalar_units(decode_first_scalar(bytes) as int));
    }
}


/// Whether two bytes can start a character of three or four bytes: the second one goes
/// on with the first, neither overlong, nor a surrogate, nor beyond the last character.
pub open spec fn can_start(first: u8, second: u8) -> bool {
    &&& 0xe0 <= first <= 0xf4
    &&& 0x80 <= second <= 0xbf
    &&& first == 0xe0 ==> second >= 0xa0
    &&& first == 0xed ==> second <= 0x9f
    &&& first == 0xf0 ==> second >= 0x90
    &&& first == 0xf4 ==> second <= 0x8f
}

/// Bytes that start no character show as one replacement character for each byte that
/// starts none, and for each start of a character that breaks off: two bytes that can
/// start one, or three where four are needed.
pub proof fn broken_text_shows_as_replacements(bytes: Seq<u8>)
    requires
        bytes.len() > 0,
        !valid_first_scalar(bytes),
    ensures
        ({
            let two_stand = bytes.len() >= 2 && can_start(bytes[0], bytes[1]);
            let three_stand = two_stand && bytes.len() >= 3 && bytes[0] >= 0xf0 && 0x80 <= bytes[2]
                <= 0xbf;
            let n = if three_stand {
                3int
            } else if two_stand {
                2
            } else {
                1
            };
            n <= bytes.len() && lossy(bytes) == seq!['\u{FFFD}'] + lossy(bytes.skip(n))
        }),
{
    if bytes.len() >= 3 {
        let b = bytes[2];
        assert(vstd::utf8::is_continuation_byte(b) <==> 0x80 <= b <= 0xbf);
    }
}

} // verus!
