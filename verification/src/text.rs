//! Text handling on sequences of characters.
use vstd::prelude::*;

verus! {

/// `String::push` appends one character.
pub assume_specification[ String::push ](s: &mut String, c: char)
    ensures
        final(s)@ == old(s)@.push(c),
;

/// `String::push_str` appends a text.
pub assume_specification[ String::push_str ](s: &mut String, text: &str)
    ensures
        final(s)@ == old(s)@ + text@,
;

/// Whether a number is a Unicode scalar value.
pub open spec fn scalar_value(n: int) -> bool {
    0 <= n < 0xD800 || 0xE000 <= n <= 0x10FFFF
}

/// `char::from_u32` gives the character of a scalar value, and nothing for other numbers.
pub assume_specification[ char::from_u32 ](n: u32) -> (r: Option<char>)
    ensures
        r is Some <==> scalar_value(n as int),
        r matches Some(c) ==> c as u32 == n,
;

/// A character is a scalar value.
pub proof fn char_is_scalar(c: char)
    ensures
        scalar_value(c as int),
        (c as int) < 0x10000 ==> c as u16 == c as int,
{
}

proof fn scalar_is_char(n: int)
    requires
        scalar_value(n),
    ensures
        (n as char) as int == n,
{
}

/// The characters of a text.
pub fn chars_of(s: &str) -> (r: Vec<char>)
    ensures
        r@ == s@,
{
    let mut r: Vec<char> = Vec::new();
    for c in it: s.chars()
        invariant
            r@ == s@.take(it.index() as int),
            it.seq() == s@,
    {
        proof {
            let i = it.index() as int;
            assert(s@.take(i).push(s@[i]) =~= s@.take(i + 1));
        }
        r.push(c);
    }
    assert(s@.take(s@.len() as int) =~= s@);
    r
}

/// The text of `chars` from `from` to `to`.
pub fn text_of(chars: &Vec<char>, from: usize, to: usize) -> (r: String)
    requires
        from <= to <= chars@.len(),
    ensures
        r@ == chars@.subrange(from as int, to as int),
{
    let mut r: String = String::new();
    let mut i: usize = from;
    assert(r@ =~= chars@.subrange(from as int, from as int));
    while i < to
        invariant
            from <= i <= to <= chars@.len(),
            r@ == chars@.subrange(from as int, i as int),
        decreases to - i,
    {
        r.push(chars[i]);
        i += 1;
        assert(r@ =~= chars@.subrange(from as int, i as int));
    }
    r
}

/// Three texts in a row.
pub fn join3(a: &str, b: &str, c: &str) -> (r: String)
    ensures
        r@ == a@ + b@ + c@,
{
    let mut r: String = a.to_string();
    r.push_str(b);
    r.push_str(c);
    r
}

/// Two texts in a row.
pub fn join2(a: &str, b: &str) -> (r: String)
    ensures
        r@ == a@ + b@,
{
    let mut r: String = a.to_string();
    r.push_str(b);
    r
}

/// The decimal digits of a number.
pub open spec fn digits(n: int) -> Seq<char>
    decreases n,
{
    let last = ((48 + n % 10) as u8) as char;
    if n < 10 {
        seq![last]
    } else {
        digits(n / 10).push(last)
    }
}

fn push_digits(s: &mut String, n: u64)
    ensures
        final(s)@ == old(s)@ + digits(n as int),
    decreases n,
{
    let ghost before = s@;
    if n >= 10 {
        push_digits(s, n / 10);
    }
    let last: u8 = 48 + (n % 10) as u8;
    s.push(last as char);
    assert(s@ =~= before + digits(n as int));
}

/// A number in decimal digits.
pub fn decimal(n: u64) -> (r: String)
    ensures
        r@ == digits(n as int),
{
    let mut r: String = String::new();
    push_digits(&mut r, n);
    assert(r@ =~= digits(n as int));
    r
}

/// Whether a unit opens a surrogate pair.
pub open spec fn high_surrogate(u: u16) -> bool {
    0xD800 <= u < 0xDC00
}

/// Whether a unit closes a surrogate pair.
pub open spec fn low_surrogate(u: u16) -> bool {
    0xDC00 <= u < 0xE000
}

/// The text that UTF-16 units spell; a surrogate without its partner becomes
/// the replacement character.
pub open spec fn decode_utf16(units: Seq<u16>) -> Seq<char>
    decreases units.len(),
{
    if units.len() == 0 {
        seq![]
    } else if high_surrogate(units[0]) && units.len() > 1 && low_surrogate(units[1]) {
        seq![(0x10000 + (units[0] - 0xD800) * 0x400 + (units[1] - 0xDC00)) as char] + decode_utf16(
            units.skip(2),
        )
    } else if high_surrogate(units[0]) || low_surrogate(units[0]) {
        seq!['\u{FFFD}'] + decode_utf16(units.skip(1))
    } else {
        seq![units[0] as char] + decode_utf16(units.skip(1))
    }
}

/// The UTF-16 units of a character.
pub open spec fn encode_char(c: char) -> Seq<u16> {
    if (c as int) < 0x10000 {
        seq![c as u16]
    } else {
        seq![
            (0xD800 + (c as int - 0x10000) / 0x400) as u16,
            (0xDC00 + (c as int - 0x10000) % 0x400) as u16,
        ]
    }
}

/// The UTF-16 units of a text.
pub open spec fn encode_utf16(text: Seq<char>) -> Seq<u16>
    decreases text.len(),
{
    if text.len() == 0 {
        seq![]
    } else {
        encode_char(text[0]) + encode_utf16(text.skip(1))
    }
}

/// The character of a number, or the replacement character where it has none.
pub fn char_or_replacement(n: u32) -> (r: char)
    ensures
        r == if scalar_value(n as int) {
            n as char
        } else {
            '\u{FFFD}'
        },
{
    match char::from_u32(n) {
        Some(c) => {
            proof {
                char_is_scalar(c);
                scalar_is_char(n as int);
            }
            c
        },
        None => '\u{FFFD}',
    }
}

/// The text that UTF-16 units spell.
pub fn utf16_text(units: &Vec<u16>) -> (r: String)
    ensures
        r@ == decode_utf16(units@),
{
    let mut r: String = String::new();
    let mut i: usize = 0;
    assert(units@.skip(0) =~= units@);
    assert(r@ + decode_utf16(units@) =~= decode_utf16(units@));
    while i < units.len()
        invariant
            i <= units@.len(),
            r@ + decode_utf16(units@.skip(i as int)) == decode_utf16(units@),
        decreases units@.len() - i,
    {
        let ghost rest = units@.skip(i as int);
        let ghost before = r@;
        let u: u16 = units[i];
        if u >= 0xD800 && u < 0xDC00 && i + 1 < units.len() && units[i + 1] >= 0xDC00 && units[i
            + 1] < 0xE000 {
            let code: u32 = 0x10000 + (u as u32 - 0xD800) * 0x400 + (units[i + 1] as u32 - 0xDC00);
            r.push(char_or_replacement(code));
            assert(rest.skip(2) =~= units@.skip(i + 2));
            assert(r@ == before.push(code as char));
            assert(before + (seq![code as char] + decode_utf16(rest.skip(2))) =~= r@ + decode_utf16(
                rest.skip(2),
            ));
            i += 2;
        } else {
            assert(rest.skip(1) =~= units@.skip(i + 1));
            r.push(char_or_replacement(u as u32));
            assert(r@ =~= before.push(r@.last()));
            assert(before + (seq![r@.last()] + decode_utf16(rest.skip(1))) =~= r@ + decode_utf16(
                rest.skip(1),
            ));
            i += 1;
        }
    }
    assert(units@.skip(i as int) =~= seq![]);
    assert(r@ + decode_utf16(units@.skip(i as int)) =~= r@);
    r
}

/// The UTF-16 units of a text.
pub fn utf16_units(text: &str) -> (r: Vec<u16>)
    ensures
        r@ == encode_utf16(text@),
{
    let chars = chars_of(text);
    let mut r: Vec<u16> = Vec::new();
    let mut i: usize = 0;
    assert(chars@.skip(0) =~= chars@);
    assert(r@ + encode_utf16(chars@) =~= encode_utf16(chars@));
    while i < chars.len()
        invariant
            i <= chars@.len(),
            r@ + encode_utf16(chars@.skip(i as int)) == encode_utf16(chars@),
        decreases chars@.len() - i,
    {
        let ghost rest = chars@.skip(i as int);
        let ghost before = r@;
        assert(rest.skip(1) =~= chars@.skip(i + 1));
        let code: u32 = chars[i] as u32;
        proof {
            char_is_scalar(chars@[i as int]);
        }
        if code < 0x10000 {
            r.push(code as u16);
        } else {
            r.push((0xD800 + (code - 0x10000) / 0x400) as u16);
            r.push((0xDC00 + (code - 0x10000) % 0x400) as u16);
        }
        assert(r@ =~= before + encode_char(chars@[i as int]));
        assert(before + (encode_char(chars@[i as int]) + encode_utf16(rest.skip(1))) =~= r@
            + encode_utf16(rest.skip(1)));
        i += 1;
    }
    assert(chars@.skip(i as int) =~= seq![]);
    assert(r@ + encode_utf16(chars@.skip(i as int)) =~= r@);
    r
}

/// Text survives the way through UTF-16.
pub proof fn utf16_round_trip(text: Seq<char>)
    ensures
        decode_utf16(encode_utf16(text)) == text,
    decreases text.len(),
{
    if text.len() == 0 {
        assert(encode_utf16(text) =~= seq![]);
        assert(text =~= seq![]);
    } else {
        utf16_round_trip(text.skip(1));
        let units = encode_utf16(text);
        let first = encode_char(text[0]);
        let rest = encode_utf16(text.skip(1));
        assert(units == first + rest);
        assert(units.skip(first.len() as int) =~= rest);
        char_is_scalar(text[0]);
        if (text[0] as int) < 0x10000 {
            assert(units[0] == text[0] as u16);
            assert(units[0] as char == text[0]);
            assert(!high_surrogate(units[0]) && !low_surrogate(units[0]));
        } else {
            let n = text[0] as int - 0x10000;
            assert(units[0] == (0xD800 + n / 0x400) as u16);
            assert(units[1] == (0xDC00 + n % 0x400) as u16);
            assert((0x10000 + (units[0] - 0xD800) * 0x400 + (units[1] - 0xDC00)) == text[0] as int);
        }
        assert(seq![text[0]] + text.skip(1) =~= text);
    }
}

/// Whether a text has no characters.
pub fn is_empty(s: &str) -> (r: bool)
    ensures
        r == (s@.len() == 0),
{
    chars_of(s).len() == 0
}

/// Whether two texts are equal.
pub fn same_text(a: &str, b: &str) -> (r: bool)
    ensures
        r == (a@ == b@),
{
    let x = chars_of(a);
    let y = chars_of(b);
    if x.len() != y.len() {
        return false;
    }
    let r = is_at(&x, &y, 0);
    assert(x@.subrange(0, y@.len() as int) =~= x@);
    r
}

/// Whether `pattern` stands in `s` at `at`.
pub open spec fn stands_at(s: Seq<char>, pattern: Seq<char>, at: int) -> bool {
    0 <= at && at + pattern.len() <= s.len() && s.subrange(at, at + pattern.len()) == pattern
}

/// Where `pattern` first stands in `s`, at or after `from`.
pub open spec fn find_from(s: Seq<char>, pattern: Seq<char>, from: int) -> Option<int>
    decreases s.len() + 1 - from,
{
    if from + pattern.len() > s.len() {
        None
    } else if stands_at(s, pattern, from) {
        Some(from)
    } else {
        find_from(s, pattern, from + 1)
    }
}

/// Whether `pattern` stands somewhere in `s`.
pub open spec fn contains_text(s: Seq<char>, pattern: Seq<char>) -> bool {
    exists|at: int| stands_at(s, pattern, at)
}

/// Searching finds a pattern exactly when it stands somewhere, and then its first place.
pub proof fn find_from_finds(s: Seq<char>, pattern: Seq<char>, from: int)
    requires
        0 <= from,
    ensures
        match find_from(s, pattern, from) {
            Some(at) => from <= at && stands_at(s, pattern, at) && forall|k: int|
                from <= k < at ==> !stands_at(s, pattern, k),
            None => forall|k: int| from <= k ==> !stands_at(s, pattern, k),
        },
    decreases s.len() + 1 - from,
{
    if from + pattern.len() > s.len() {
    } else if stands_at(s, pattern, from) {
    } else {
        find_from_finds(s, pattern, from + 1);
    }
}

/// Whether `pattern` stands in `s` at `at`.
pub fn is_at(s: &Vec<char>, pattern: &Vec<char>, at: usize) -> (r: bool)
    ensures
        r == stands_at(s@, pattern@, at as int),
{
    if pattern.len() > s.len() || at > s.len() - pattern.len() {
        return false;
    }
    let mut i: usize = 0;
    assert(s.len() == s@.len());
    while i < pattern.len()
        invariant
            i <= pattern@.len(),
            at + pattern@.len() <= s@.len() <= usize::MAX,
            forall|k: int| 0 <= k < i ==> s@[at + k] == pattern@[k],
        decreases pattern@.len() - i,
    {
        if s[at + i] != pattern[i] {
            assert(s@.subrange(at as int, at + pattern@.len())[i as int] != pattern@[i as int]);
            return false;
        }
        i += 1;
    }
    assert(s@.subrange(at as int, at + pattern@.len()) =~= pattern@);
    true
}

/// Where `pattern` first stands in `s`, at or after `from`.
pub fn find(s: &Vec<char>, pattern: &Vec<char>, from: usize) -> (r: Option<usize>)
    ensures
        match r {
            Some(at) => find_from(s@, pattern@, from as int) == Some(at as int),
            None => find_from(s@, pattern@, from as int) is None,
        },
{
    let mut at: usize = from;
    assert(s.len() == s@.len());
    loop
        invariant
            s@.len() <= usize::MAX,
            find_from(s@, pattern@, at as int) == find_from(s@, pattern@, from as int),
        decreases s@.len() + 1 - at,
    {
        if pattern.len() > s.len() || at > s.len() - pattern.len() {
            return None;
        }
        if is_at(s, pattern, at) {
            return Some(at);
        }
        if at == usize::MAX {
            assert(find_from(s@, pattern@, at + 1) is None);
            return None;
        }
        at += 1;
    }
}

/// Whether `pattern` stands somewhere in `s`.
pub fn contains(s: &str, pattern: &str) -> (r: bool)
    ensures
        r == contains_text(s@, pattern@),
{
    let r = find(&chars_of(s), &chars_of(pattern), 0);
    proof {
        find_from_finds(s@, pattern@, 0);
    }
    r.is_some()
}

/// `s` from `from` on, with every `pattern` replaced by `with`.
pub open spec fn replace_from(s: Seq<char>, pattern: Seq<char>, with: Seq<char>, from: int) -> Seq<
    char,
>
    decreases s.len() - from,
    when pattern.len() > 0
    via replace_from_decreases
{
    match find_from(s, pattern, from) {
        None => s.skip(from),
        Some(at) => s.subrange(from, at) + with + replace_from(s, pattern, with, at + pattern.len()),
    }
}

#[via_fn]
proof fn replace_from_decreases(s: Seq<char>, pattern: Seq<char>, with: Seq<char>, from: int) {
    find_from_bound(s, pattern, from);
}

proof fn find_from_bound(s: Seq<char>, pattern: Seq<char>, from: int)
    ensures
        find_from(s, pattern, from) matches Some(at) ==> from <= at && at + pattern.len() <= s.len(),
    decreases s.len() + 1 - from,
{
    if from + pattern.len() > s.len() {
    } else if stands_at(s, pattern, from) {
    } else {
        find_from_bound(s, pattern, from + 1);
    }
}

/// A text with every `pattern` replaced by `with`.
pub fn replace(s: &str, pattern: &str, with: &str) -> (r: String)
    requires
        pattern@.len() > 0,
    ensures
        r@ == replace_from(s@, pattern@, with@, 0),
{
    let chars = chars_of(s);
    let what = chars_of(pattern);
    let mut r: String = String::new();
    let mut from: usize = 0;
    assert(chars.len() == chars@.len());
    assert(r@ + replace_from(s@, pattern@, with@, 0) =~= replace_from(s@, pattern@, with@, 0));
    loop
        invariant_except_break
            from <= chars@.len() <= usize::MAX,
            chars@ == s@,
            what@ == pattern@,
            pattern@.len() > 0,
            r@ + replace_from(s@, pattern@, with@, from as int) == replace_from(
                s@,
                pattern@,
                with@,
                0,
            ),
        ensures
            r@ == replace_from(s@, pattern@, with@, 0),
        decreases chars@.len() - from,
    {
        proof {
            find_from_bound(s@, pattern@, from as int);
        }
        let ghost before = r@;
        match find(&chars, &what, from) {
            None => {
                r.push_str(text_of(&chars, from, chars.len()).as_str());
                assert(chars@.subrange(from as int, chars@.len() as int) =~= s@.skip(from as int));
                break;
            },
            Some(at) => {
                r.push_str(text_of(&chars, from, at).as_str());
                r.push_str(with);
                let ghost part = s@.subrange(from as int, at as int);
                let ghost rest = replace_from(s@, pattern@, with@, at + pattern@.len());
                from = at + what.len();
                assert(before + (part + with@ + rest) =~= r@ + rest);
            },
        }
    }
    r
}

/// Whether a character has the Unicode property White_Space.
pub open spec fn white_space(c: char) -> bool {
    let n = c as int;
    9 <= n <= 13 || n == 32 || n == 0x85 || n == 0xA0 || n == 0x1680 || 0x2000 <= n <= 0x200A || n
        == 0x2028 || n == 0x2029 || n == 0x202F || n == 0x205F || n == 0x3000
}

/// A text without the white space at its ends.
pub open spec fn trimmed(s: Seq<char>) -> Seq<char>
    decreases s.len(),
{
    if s.len() == 0 {
        s
    } else if white_space(s[0]) {
        trimmed(s.skip(1))
    } else if white_space(s.last()) {
        trimmed(s.drop_last())
    } else {
        s
    }
}

fn is_white_space(c: char) -> (r: bool)
    ensures
        r == white_space(c),
{
    let n: u32 = c as u32;
    (n >= 9 && n <= 13) || n == 32 || n == 0x85 || n == 0xA0 || n == 0x1680 || (n >= 0x2000 && n
        <= 0x200A) || n == 0x2028 || n == 0x2029 || n == 0x202F || n == 0x205F || n == 0x3000
}

/// A text without the white space at its ends.
pub fn trim(s: &str) -> (r: String)
    ensures
        r@ == trimmed(s@),
{
    let chars = chars_of(s);
    let mut from: usize = 0;
    let mut to: usize = chars.len();
    assert(chars@.subrange(0, chars@.len() as int) =~= chars@);
    while from < to && is_white_space(chars[from])
        invariant
            from <= to == chars@.len(),
            trimmed(chars@) == trimmed(chars@.subrange(from as int, to as int)),
        decreases to - from,
    {
        assert(chars@.subrange(from as int, to as int).skip(1) =~= chars@.subrange(
            from + 1,
            to as int,
        ));
        from += 1;
    }
    while from < to && is_white_space(chars[to - 1])
        invariant
            from <= to <= chars@.len(),
            from < to ==> !white_space(chars@[from as int]),
            trimmed(chars@) == trimmed(chars@.subrange(from as int, to as int)),
        decreases to - from,
    {
        assert(chars@.subrange(from as int, to as int).drop_last() =~= chars@.subrange(
            from as int,
            to - 1,
        ));
        to -= 1;
    }
    text_of(&chars, from, to)
}

} // verus!
