//! Paths of systems that keep them as bytes: as UTF-16 units, and back.
use vstd::prelude::*;
use vstd::utf8::{codepoint_width_1, codepoint_width_2, codepoint_width_3, codepoint_width_4, decode_first_scalar, decode_utf8, decode_utf8_first_scalar, encode_scalar, is_continuation_byte, is_scalar, length_of_first_scalar, pop_first_scalar, take_first_scalar, valid_first_scalar, valid_utf8};
use crate::text::{char_or_replacement, high_surrogate, low_surrogate};

verus! {

/// The UTF-16 units of a scalar value.
pub open spec fn scalar_units(scalar: int) -> Seq<u16> {
    if scalar < 0x10000 {
        seq![scalar as u16]
    } else {
        seq![
            (0xD800 + (scalar - 0x10000) / 0x400) as u16,
            (0xDC00 + (scalar - 0x10000) % 0x400) as u16,
        ]
    }
}

/// The units of a path in bytes. What is UTF-8 becomes UTF-16; any other byte
/// becomes a low surrogate without its partner, which no text holds.
pub open spec fn raw_units(bytes: Seq<u8>) -> Seq<u16>
    decreases bytes.len(),
{
    if bytes.len() == 0 {
        seq![]
    } else if valid_first_scalar(bytes) {
        scalar_units(decode_first_scalar(bytes) as int) + raw_units(pop_first_scalar(bytes))
    } else {
        seq![(0xDC00 + bytes[0]) as u16] + raw_units(bytes.skip(1))
    }
}

/// The bytes of a path in units.
pub open spec fn raw_bytes(units: Seq<u16>) -> Seq<u8>
    decreases units.len(),
{
    if units.len() == 0 {
        seq![]
    } else if high_surrogate(units[0]) && units.len() > 1 && low_surrogate(units[1]) {
        encode_scalar(
            (0x10000 + (units[0] - 0xD800) * 0x400 + (units[1] - 0xDC00)) as u32,
        ) + raw_bytes(units.skip(2))
    } else if 0xDC80 <= units[0] <= 0xDCFF {
        seq![(units[0] - 0xDC00) as u8] + raw_bytes(units.skip(1))
    } else if high_surrogate(units[0]) || low_surrogate(units[0]) {
        encode_scalar(0xFFFD) + raw_bytes(units.skip(1))
    } else {
        encode_scalar(units[0] as u32) + raw_bytes(units.skip(1))
    }
}

proof fn first_scalar_survives(bytes: Seq<u8>)
    requires
        valid_first_scalar(bytes),
    ensures
        is_scalar(decode_first_scalar(bytes)),
        encode_scalar(decode_first_scalar(bytes)) == take_first_scalar(bytes),
        bytes == take_first_scalar(bytes) + pop_first_scalar(bytes),
        0 < length_of_first_scalar(bytes) <= bytes.len(),
{
    let first = take_first_scalar(bytes);
    assert(decode_first_scalar(first) == decode_first_scalar(bytes));
    assert(valid_first_scalar(first));
    assert(pop_first_scalar(first).len() == 0);
    assert(valid_utf8(pop_first_scalar(first)));
    assert(valid_utf8(first));
    scalars_are_in_range(bytes);
    decode_utf8_first_scalar(first);
    assert(take_first_scalar(first) =~= first);
    let scalar = decode_first_scalar(bytes);
    assert((scalar as char) as u32 == scalar);
    assert(bytes =~= first + pop_first_scalar(bytes));
}

/// What a spelling spells is a scalar value.
pub proof fn scalars_are_in_range(bytes: Seq<u8>)
    requires
        valid_first_scalar(bytes),
    ensures
        is_scalar(decode_first_scalar(bytes)),
{
    let a = bytes[0];
    if a <= 0x7F {
        assert(codepoint_width_1(a) <= 0x7F) by (bit_vector);
    } else if a <= 0xDF {
        let b = bytes[1];
        assert(codepoint_width_2(a, b) <= 0x7FF) by (bit_vector);
    } else if a <= 0xEF {
        let (b, c) = (bytes[1], bytes[2]);
        assert(codepoint_width_3(a, b, c) <= 0xFFFF) by (bit_vector);
    }
}

/// Every path of bytes comes back from its units.
pub proof fn raw_paths_survive(bytes: Seq<u8>)
    ensures
        raw_bytes(raw_units(bytes)) == bytes,
    decreases bytes.len(),
{
    if bytes.len() > 0 {
        let units = raw_units(bytes);
        if valid_first_scalar(bytes) {
            first_scalar_survives(bytes);
            let scalar = decode_first_scalar(bytes) as int;
            let rest = pop_first_scalar(bytes);
            raw_paths_survive(rest);
            let first = scalar_units(scalar);
            assert(units.skip(first.len() as int) =~= raw_units(rest));
            assert(units[0] == first[0]);
            if scalar >= 0x10000 {
                assert(units[1] == first[1]);
                assert(0x10000 + (units[0] - 0xD800) * 0x400 + (units[1] - 0xDC00) == scalar);
            }
        } else {
            assert(bytes[0] >= 0x80);
            raw_paths_survive(bytes.skip(1));
            assert(units.skip(1) =~= raw_units(bytes.skip(1)));
            assert(units[0] == 0xDC00 + bytes[0]);
            assert(bytes =~= seq![bytes[0]] + bytes.skip(1));
        }
    }
}

fn is_continuation(byte: u8) -> (r: bool)
    ensures
        r == is_continuation_byte(byte),
{
    0x80 <= byte && byte <= 0xBF
}

/// The scalar value that bytes start with, and how many bytes spell it.
fn first_scalar(bytes: &[u8], at: usize) -> (r: Option<(u32, usize)>)
    requires
        at < bytes@.len(),
    ensures
        match r {
            Some((scalar, length)) => valid_first_scalar(bytes@.skip(at as int)) && scalar
                == decode_first_scalar(bytes@.skip(at as int)) && length == length_of_first_scalar(
                bytes@.skip(at as int),
            ),
            None => !valid_first_scalar(bytes@.skip(at as int)),
        },
{
    let ghost rest = bytes@.skip(at as int);
    assert(bytes.len() == bytes@.len());
    assert(forall|k: int| 0 <= k < rest.len() ==> rest[k] == bytes@[at + k]);
    let left: usize = bytes.len() - at;
    let a: u8 = bytes[at];
    if a <= 0x7F {
        let scalar: u32 = (a & 0x7F) as u32;
        assert(codepoint_width_1(a) <= 0x7F) by (bit_vector);
        return Some((scalar, 1));
    }
    if 0xC0 <= a && a <= 0xDF && left >= 2 && is_continuation(bytes[at + 1]) {
        let b: u8 = bytes[at + 1];
        let scalar: u32 = ((a & 0x1F) as u32) << 6 | (b & 0x3F) as u32;
        assert(scalar == codepoint_width_2(a, b));
        assert(codepoint_width_2(a, b) <= 0x7FF) by (bit_vector);
        return if scalar >= 0x80 {
            Some((scalar, 2))
        } else {
            None
        };
    }
    if 0xE0 <= a && a <= 0xEF && left >= 3 && is_continuation(bytes[at + 1]) && is_continuation(
        bytes[at + 2],
    ) {
        let b: u8 = bytes[at + 1];
        let c: u8 = bytes[at + 2];
        let scalar: u32 = ((a & 0x0F) as u32) << 12 | ((b & 0x3F) as u32) << 6 | (c & 0x3F) as u32;
        assert(scalar == codepoint_width_3(a, b, c));
        return if scalar >= 0x800 && (scalar < 0xD800 || scalar > 0xDFFF) {
            Some((scalar, 3))
        } else {
            None
        };
    }
    if 0xF0 <= a && a <= 0xF7 && left >= 4 && is_continuation(bytes[at + 1]) && is_continuation(
        bytes[at + 2],
    ) && is_continuation(bytes[at + 3]) {
        let b: u8 = bytes[at + 1];
        let c: u8 = bytes[at + 2];
        let d: u8 = bytes[at + 3];
        let scalar: u32 = ((a & 0x07) as u32) << 18 | ((b & 0x3F) as u32) << 12 | ((c
            & 0x3F) as u32) << 6 | (d & 0x3F) as u32;
        assert(scalar == codepoint_width_4(a, b, c, d));
        return if 0x10000 <= scalar && scalar <= 0x10FFFF {
            Some((scalar, 4))
        } else {
            None
        };
    }
    None
}

/// The units of a path in bytes.
pub fn units_of_bytes(bytes: &[u8]) -> (r: Vec<u16>)
    ensures
        r@ == raw_units(bytes@),
{
    let mut r: Vec<u16> = Vec::new();
    let mut i: usize = 0;
    assert(bytes.len() == bytes@.len());
    assert(bytes@.skip(0) =~= bytes@);
    assert(r@ + raw_units(bytes@) =~= raw_units(bytes@));
    while i < bytes.len()
        invariant
            i <= bytes@.len() <= usize::MAX,
            r@ + raw_units(bytes@.skip(i as int)) == raw_units(bytes@),
        decreases bytes@.len() - i,
    {
        let ghost rest = bytes@.skip(i as int);
        let ghost before = r@;
        match first_scalar(bytes, i) {
            Some((scalar, length)) => {
                proof {
                    first_scalar_survives(rest);
                    assert(pop_first_scalar(rest) =~= bytes@.skip(i + length));
                }
                if scalar < 0x10000 {
                    r.push(scalar as u16);
                } else {
                    r.push((0xD800 + (scalar - 0x10000) / 0x400) as u16);
                    r.push((0xDC00 + (scalar - 0x10000) % 0x400) as u16);
                }
                assert(r@ =~= before + scalar_units(scalar as int));
                assert(r@ + raw_units(bytes@.skip(i + length)) =~= before + (scalar_units(
                    scalar as int,
                ) + raw_units(bytes@.skip(i + length))));
                i += length;
            },
            None => {
                r.push(0xDC00 + bytes[i] as u16);
                assert(rest.skip(1) =~= bytes@.skip(i + 1));
                assert(rest[0] == bytes@[i as int]);
                assert(r@ + raw_units(rest.skip(1)) =~= before + (seq![
                    (0xDC00 + rest[0]) as u16,
                ] + raw_units(rest.skip(1))));
                i += 1;
            },
        }
    }
    assert(bytes@.skip(i as int) =~= seq![]);
    assert(r@ + raw_units(bytes@.skip(i as int)) =~= r@);
    r
}

fn push_scalar(bytes: &mut Vec<u8>, scalar: u32)
    ensures
        final(bytes)@ == old(bytes)@ + encode_scalar(scalar),
{
    let ghost before = bytes@;
    if scalar <= 0x7F {
        bytes.push((scalar & 0x7F) as u8);
    } else if scalar <= 0x7FF {
        bytes.push(0xC0 | ((scalar >> 6) & 0x1F) as u8);
        bytes.push(0x80 | (scalar & 0x3F) as u8);
    } else if scalar <= 0xFFFF && !(0xD800 <= scalar && scalar <= 0xDFFF) {
        bytes.push(0xE0 | ((scalar >> 12) & 0x0F) as u8);
        bytes.push(0x80 | ((scalar >> 6) & 0x3F) as u8);
        bytes.push(0x80 | (scalar & 0x3F) as u8);
    } else {
        bytes.push(0xF0 | ((scalar >> 18) & 0x7) as u8);
        bytes.push(0x80 | ((scalar >> 12) & 0x3F) as u8);
        bytes.push(0x80 | ((scalar >> 6) & 0x3F) as u8);
        bytes.push(0x80 | (scalar & 0x3F) as u8);
    }
    assert(bytes@ =~= before + encode_scalar(scalar));
}

/// The bytes of a path in units.
pub fn bytes_of_units(units: &Vec<u16>) -> (r: Vec<u8>)
    ensures
        r@ == raw_bytes(units@),
{
    let mut r: Vec<u8> = Vec::new();
    let mut i: usize = 0;
    assert(units@.skip(0) =~= units@);
    assert(r@ + raw_bytes(units@) =~= raw_bytes(units@));
    while i < units.len()
        invariant
            i <= units@.len(),
            r@ + raw_bytes(units@.skip(i as int)) == raw_bytes(units@),
        decreases units@.len() - i,
    {
        let ghost rest = units@.skip(i as int);
        let ghost before = r@;
        let u: u16 = units[i];
        assert(rest[0] == u);
        if u >= 0xD800 && u < 0xDC00 && i + 1 < units.len() && units[i + 1] >= 0xDC00 && units[i
            + 1] < 0xE000 {
            let scalar: u32 = 0x10000 + (u as u32 - 0xD800) * 0x400 + (units[i + 1] as u32
                - 0xDC00);
            push_scalar(&mut r, scalar);
            assert(rest[1] == units@[i + 1]);
            assert(rest.skip(2) =~= units@.skip(i + 2));
            assert(before + (encode_scalar(scalar) + raw_bytes(rest.skip(2))) =~= r@ + raw_bytes(
                rest.skip(2),
            ));
            i += 2;
        } else {
            assert(rest.len() > 1 ==> rest[1] == units@[i + 1]);
            assert(rest.skip(1) =~= units@.skip(i + 1));
            if u >= 0xDC80 && u <= 0xDCFF {
                r.push((u - 0xDC00) as u8);
                assert(before + (seq![(u - 0xDC00) as u8] + raw_bytes(rest.skip(1))) =~= r@
                    + raw_bytes(rest.skip(1)));
            } else {
                let scalar: u32 = if u >= 0xD800 && u < 0xE000 {
                    0xFFFD
                } else {
                    u as u32
                };
                push_scalar(&mut r, scalar);
                assert(before + (encode_scalar(scalar) + raw_bytes(rest.skip(1))) =~= r@
                    + raw_bytes(rest.skip(1)));
            }
            i += 1;
        }
    }
    assert(units@.skip(i as int) =~= seq![]);
    assert(r@ + raw_bytes(units@.skip(i as int)) =~= r@);
    r
}

/// Whether `second` may stand behind `first` in the spelling of a scalar value
/// that takes more than one byte.
pub open spec fn goes_on(first: u8, second: u8) -> bool {
    if first == 0xE0 {
        0xA0 <= second <= 0xBF
    } else if first == 0xED {
        0x80 <= second <= 0x9F
    } else if first == 0xF0 {
        0x90 <= second <= 0xBF
    } else if first == 0xF4 {
        0x80 <= second <= 0x8F
    } else {
        0xC2 <= first <= 0xF4 && 0x80 <= second <= 0xBF
    }
}

/// How many bytes, of some that do not start with a scalar value, belong to the
/// spelling of one that breaks off; a byte that starts none stands alone.
pub open spec fn broken_off(bytes: Seq<u8>) -> int {
    if bytes.len() < 2 || bytes[0] < 0xE0 || !goes_on(bytes[0], bytes[1]) {
        1
    } else if bytes.len() < 3 || bytes[0] < 0xF0 || !is_continuation_byte(bytes[2]) {
        2
    } else {
        3
    }
}

/// Bytes as text. Each spelling that breaks off, and each byte that starts none,
/// becomes one replacement character.
pub open spec fn lossy(bytes: Seq<u8>) -> Seq<char>
    decreases bytes.len(),
{
    if bytes.len() == 0 {
        seq![]
    } else if valid_first_scalar(bytes) {
        seq![decode_first_scalar(bytes) as char] + lossy(pop_first_scalar(bytes))
    } else {
        seq!['\u{FFFD}'] + lossy(bytes.skip(broken_off(bytes)))
    }
}

/// Bytes that are UTF-8 are shown as what they spell.
pub proof fn utf8_is_shown_as_it_is(bytes: Seq<u8>)
    requires
        valid_utf8(bytes),
    ensures
        lossy(bytes) == decode_utf8(bytes),
    decreases bytes.len(),
{
    if bytes.len() > 0 {
        utf8_is_shown_as_it_is(pop_first_scalar(bytes));
    }
}

/// How many bytes at `at` belong to a spelling that breaks off.
fn bytes_broken_off(bytes: &[u8], at: usize) -> (r: usize)
    requires
        at < bytes@.len(),
        !valid_first_scalar(bytes@.skip(at as int)),
    ensures
        r == broken_off(bytes@.skip(at as int)),
        1 <= r <= bytes@.len() - at,
{
    let ghost rest = bytes@.skip(at as int);
    assert(bytes.len() == bytes@.len());
    assert(forall|k: int| 0 <= k < rest.len() ==> rest[k] == bytes@[at + k]);
    let left: usize = bytes.len() - at;
    if left < 2 {
        return 1;
    }
    let first: u8 = bytes[at];
    let second: u8 = bytes[at + 1];
    let follows: bool = if first == 0xE0 {
        0xA0 <= second && second <= 0xBF
    } else if first == 0xED {
        0x80 <= second && second <= 0x9F
    } else if first == 0xF0 {
        0x90 <= second && second <= 0xBF
    } else if first == 0xF4 {
        0x80 <= second && second <= 0x8F
    } else {
        0xC2 <= first && first <= 0xF4 && 0x80 <= second && second <= 0xBF
    };
    if first < 0xE0 || !follows {
        1
    } else if left < 3 || first < 0xF0 || !is_continuation(bytes[at + 2]) {
        2
    } else {
        3
    }
}

/// Bytes as text.
pub fn lossy_text(bytes: &Vec<u8>) -> (r: String)
    ensures
        r@ == lossy(bytes@),
{
    let mut r: String = String::new();
    let mut i: usize = 0;
    assert(bytes@.skip(0) =~= bytes@);
    assert(r@ + lossy(bytes@) =~= lossy(bytes@));
    while i < bytes.len()
        invariant
            i <= bytes@.len(),
            r@ + lossy(bytes@.skip(i as int)) == lossy(bytes@),
        decreases bytes@.len() - i,
    {
        let ghost rest = bytes@.skip(i as int);
        let ghost before = r@;
        match first_scalar(bytes.as_slice(), i) {
            Some((scalar, length)) => {
                proof {
                    first_scalar_survives(rest);
                    assert(pop_first_scalar(rest) =~= bytes@.skip(i + length));
                }
                r.push(char_or_replacement(scalar));
                assert(r@ + lossy(bytes@.skip(i + length)) =~= before + (seq![scalar as char] + lossy(
                    bytes@.skip(i + length),
                )));
                i += length;
            },
            None => {
                let length: usize = bytes_broken_off(bytes.as_slice(), i);
                r.push('\u{FFFD}');
                assert(rest.skip(length as int) =~= bytes@.skip(i + length));
                assert(r@ + lossy(bytes@.skip(i + length)) =~= before + (seq!['\u{FFFD}'] + lossy(
                    bytes@.skip(i + length),
                )));
                i += length;
            },
        }
    }
    assert(bytes@.skip(i as int) =~= seq![]);
    assert(r@ + lossy(bytes@.skip(i as int)) =~= r@);
    r
}

} // verus!
