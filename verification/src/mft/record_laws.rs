//! What the bytes of a file record say, byte by byte.
use vstd::prelude::*;
use crate::bytes::{le, number_at, sliced, zero_from};
use crate::mft::{attribute_fault, attributes_from, attributes_of, listed_references, references_of, resident_value, spells_file};
use crate::mft::record::{forbidden_unit, link_name, record_of, units_of, with_attribute, with_attributes, with_file_name, with_link, with_standard_information, LinkView, RecordView};
use crate::sort::in_order_keeps_the_numbers;
use crate::time::{instants_stand_at_their_distance, Timestamp};

verus! {

/// The number in two bytes, the low one first.
pub open spec fn two(b: Seq<u8>, at: int) -> int {
    b[at] + 0x100 * b[at + 1]
}

/// The number in four bytes, the low one first.
pub open spec fn four(b: Seq<u8>, at: int) -> int {
    b[at] + 0x100 * b[at + 1] + 0x1_0000 * b[at + 2] + 0x100_0000 * b[at + 3]
}

/// The number in eight bytes, the low one first.
pub open spec fn eight(b: Seq<u8>, at: int) -> int {
    b[at] + 0x100 * b[at + 1] + 0x1_0000 * b[at + 2] + 0x100_0000 * b[at + 3] + 0x1_0000_0000 * b[at
        + 4] + 0x100_0000_0000 * b[at + 5] + 0x1_0000_0000_0000 * b[at + 6] + 0x100_0000_0000_0000
        * b[at + 7]
}

/// Two bytes spell their number.
pub proof fn le_two(b: Seq<u8>)
    requires
        b.len() == 2,
    ensures
        le(b) == two(b, 0),
{
    let b1 = b.drop_first();
    assert(le(b1.drop_first()) == 0);
    assert(le(b1) == b1[0]);
}

/// Four bytes spell their number.
pub proof fn le_four(b: Seq<u8>)
    requires
        b.len() == 4,
    ensures
        le(b) == four(b, 0),
{
    let b2 = b.drop_first().drop_first();
    le_two(b2);
    assert(b2[0] == b[2] && b2[1] == b[3]);
    assert(le(b.drop_first()) == b[1] + 256 * le(b2));
}

/// Eight bytes spell their number.
pub proof fn le_eight(b: Seq<u8>)
    requires
        b.len() == 8,
    ensures
        le(b) == eight(b, 0),
{
    let b2 = b.drop_first().drop_first();
    let b4 = b2.drop_first().drop_first();
    le_four(b4);
    assert(b4[0] == b[4] && b4[1] == b[5] && b4[2] == b[6] && b4[3] == b[7]);
    assert(le(b2.drop_first()) == b[3] + 256 * le(b4));
    assert(le(b2) == b[2] + 256 * le(b2.drop_first()));
    assert(le(b.drop_first()) == b[1] + 256 * le(b2));
}

/// A number that is read is the one that its bytes spell.
pub proof fn numbers_are_spelt_by_their_bytes(data: Seq<u8>, at: int)
    requires
        0 <= at,
        data.len() <= usize::MAX,
    ensures
        at + 2 <= data.len() ==> number_at(data, at, 2) == Ok::<int, Seq<char>>(two(data, at)),
        at + 4 <= data.len() ==> number_at(data, at, 4) == Ok::<int, Seq<char>>(four(data, at)),
        at + 8 <= data.len() ==> number_at(data, at, 8) == Ok::<int, Seq<char>>(eight(data, at)),
        at + 2 > data.len() ==> number_at(data, at, 2) is Err,
        at + 4 > data.len() ==> number_at(data, at, 4) is Err,
        at + 8 > data.len() ==> number_at(data, at, 8) is Err,
{
    if at + 2 <= data.len() {
        le_two(data.subrange(at, at + 2));
    }
    if at + 4 <= data.len() {
        le_four(data.subrange(at, at + 4));
    }
    if at + 8 <= data.len() {
        le_eight(data.subrange(at, at + 8));
    }
}

/// Whether the form of an attribute can be relied on: the value of a resident one
/// and the name lie inside it, and a nonresident one has its whole header.
pub open spec fn is_well_formed(attr: Seq<u8>) -> bool {
    &&& attr[8] == 0 || attr[8] == 1
    &&& attr[8] == 0 ==> 24 <= two(attr, 20) && two(attr, 20) + four(attr, 16) <= attr.len()
    &&& attr[8] == 1 ==> 64 <= attr.len()
    &&& attr[9] != 0 ==> two(attr, 10) + 2 * attr[9] <= attr.len()
}

/// Whether `attrs` are the attributes that stand in `data` one after the other,
/// from `at` to the end mark, each as long as it says.
pub open spec fn stand_in(data: Seq<u8>, at: int, attrs: Seq<Seq<u8>>) -> bool
    decreases attrs.len(),
{
    &&& at + 4 <= data.len()
    &&& if attrs.len() == 0 {
        four(data, at) == 0xFFFF_FFFF
    } else {
        let length = four(data, at + 4);
        &&& four(data, at) != 0xFFFF_FFFF
        &&& at + 8 <= data.len()
        &&& 24 <= length
        &&& length % 8 == 0
        &&& at + length <= data.len()
        &&& attrs[0] == data.subrange(at, at + length)
        &&& is_well_formed(attrs[0])
        &&& stand_in(data, at + length, attrs.drop_first())
    }
}

proof fn faults_are_malformations(attr: Seq<u8>)
    requires
        24 <= attr.len() <= usize::MAX,
    ensures
        attribute_fault(attr) is None <==> is_well_formed(attr),
{
    numbers_are_spelt_by_their_bytes(attr, 20);
    numbers_are_spelt_by_their_bytes(attr, 16);
    numbers_are_spelt_by_their_bytes(attr, 10);
}

proof fn listed_attributes_stand_there(data: Seq<u8>, at: int)
    requires
        0 <= at,
        data.len() <= usize::MAX,
    ensures
        attributes_from(data, at) matches Ok(attrs) ==> stand_in(data, at, attrs),
    decreases data.len() - at,
{
    numbers_are_spelt_by_their_bytes(data, at);
    numbers_are_spelt_by_their_bytes(data, at + 4);
    if attributes_from(data, at) is Ok && four(data, at) != u32::MAX {
        let length = four(data, at + 4);
        let attr = data.subrange(at, at + length);
        faults_are_malformations(attr);
        listed_attributes_stand_there(data, at + length);
        let attrs = attributes_from(data, at)->Ok_0;
        assert(attrs.drop_first() =~= attributes_from(data, at + length)->Ok_0);
    }
}

proof fn standing_attributes_are_listed(data: Seq<u8>, at: int, attrs: Seq<Seq<u8>>)
    requires
        0 <= at,
        data.len() <= usize::MAX,
        stand_in(data, at, attrs),
    ensures
        attributes_from(data, at) == Ok::<Seq<Seq<u8>>, Seq<char>>(attrs),
    decreases attrs.len(),
{
    numbers_are_spelt_by_their_bytes(data, at);
    numbers_are_spelt_by_their_bytes(data, at + 4);
    if attrs.len() == 0 {
        assert(attrs =~= seq![]);
    } else {
        let length = four(data, at + 4);
        faults_are_malformations(attrs[0]);
        standing_attributes_are_listed(data, at + length, attrs.drop_first());
        assert(seq![attrs[0]] + attrs.drop_first() =~= attrs);
    }
}

/// The attributes of a record are those that stand in its used part, from the
/// place that it names to the end mark; such attributes are always listed, and
/// nothing else is.
pub proof fn attributes_are_those_that_stand_there(record: Seq<u8>, attrs: Seq<Seq<u8>>)
    requires
        record.len() <= usize::MAX,
    ensures
        attributes_of(record) == Ok::<Seq<Seq<u8>>, Seq<char>>(attrs) <==> (28 <= record.len() && four(
            record,
            24,
        ) <= record.len() && 42 <= two(record, 20) && two(record, 20) % 8 == 0 && stand_in(
            record.take(four(record, 24)),
            two(record, 20),
            attrs,
        )),
{
    numbers_are_spelt_by_their_bytes(record, 24);
    numbers_are_spelt_by_their_bytes(record, 20);
    if 28 <= record.len() && four(record, 24) <= record.len() {
        let used = record.take(four(record, 24));
        listed_attributes_stand_there(used, two(record, 20));
        if stand_in(used, two(record, 20), attrs) {
            standing_attributes_are_listed(used, two(record, 20), attrs);
        }
    }
}

/// Attributes that stand in a record have a header and can be relied on.
pub proof fn standing_attributes_are_long(data: Seq<u8>, at: int, attrs: Seq<Seq<u8>>)
    requires
        0 <= at,
        stand_in(data, at, attrs),
    ensures
        forall|k: int|
            0 <= k < attrs.len() ==> 24 <= (#[trigger] attrs[k]).len() <= data.len()
                && is_well_formed(attrs[k]),
    decreases attrs.len(),
{
    if attrs.len() > 0 {
        let length = four(data, at + 4);
        standing_attributes_are_long(data, at + length, attrs.drop_first());
        assert forall|k: int| 0 <= k < attrs.len() implies 24 <= (#[trigger] attrs[k]).len()
            <= data.len() && is_well_formed(attrs[k]) by {
            if k > 0 {
                assert(attrs[k] == attrs.drop_first()[k - 1]);
            }
        }
    }
}

/// The kind of an attribute.
pub open spec fn kind(attr: Seq<u8>) -> int {
    four(attr, 0)
}

/// Where the value of a resident attribute starts.
pub open spec fn value_at(attr: Seq<u8>) -> int {
    two(attr, 20)
}

/// Whether an attribute tells the size of the file: the data without a name,
/// in the record itself or from its first cluster on.
pub open spec fn tells_size() -> spec_fn(Seq<u8>) -> bool {
    |attr: Seq<u8>| kind(attr) == 0x80 && attr[9] == 0 && (attr[8] == 0 || eight(attr, 16) == 0)
}

/// The size that such an attribute tells: how long the value is, or the 64 bits
/// in which the length of the stream stands.
pub open spec fn told_size(attr: Seq<u8>) -> int {
    if attr[8] == 0 {
        four(attr, 16)
    } else {
        eight(attr, 48)
    }
}

/// Whether an attribute tells the dates of the file.
pub open spec fn tells_dates() -> spec_fn(Seq<u8>) -> bool {
    |attr: Seq<u8>| kind(attr) == 0x10
}

/// Whether a date is the one that a count of 100 nanosecond steps from the year
/// 1601 names; zero names none.
pub open spec fn is_date(date: Option<Timestamp>, steps: int) -> bool {
    if steps == 0 {
        date is None
    } else {
        date is Some && date->0@ == (steps - 116_444_736_000_000_000) * 100
    }
}

/// Whether an attribute says that the file is a reparse point: by the tenth bit of
/// its standard flags, or by being there.
pub open spec fn tells_reparse(attr: Seq<u8>) -> bool {
    kind(attr) == 0xc0 || (kind(attr) == 0x10 && attr[value_at(attr) + 33] / 4 % 2 == 1)
}

/// Whether an attribute lists parts of the record outside the record.
pub open spec fn lists_outside(attr: Seq<u8>) -> bool {
    kind(attr) == 0x20 && attr[8] != 0
}

/// Whether an attribute lists parts of the record in the record itself.
pub open spec fn lists_inside() -> spec_fn(Seq<u8>) -> bool {
    |attr: Seq<u8>| kind(attr) == 0x20 && attr[8] == 0
}

/// The list in such an attribute.
pub open spec fn listed(attr: Seq<u8>) -> Seq<u8> {
    attr.subrange(value_at(attr), value_at(attr) + four(attr, 16))
}

/// The units of the name in a file name attribute.
pub open spec fn spelt_name(attr: Seq<u8>) -> Seq<u16> {
    Seq::new(
        attr[value_at(attr) + 64] as nat,
        |k: int| two(attr, value_at(attr) + 66 + 2 * k) as u16,
    )
}

/// The name in a file name attribute as it is kept.
pub open spec fn kept_name(attr: Seq<u8>, windows: bool) -> Seq<u16> {
    link_name(spelt_name(attr), windows)
}

/// Whether an attribute gives the file a name: no short alias, and no dots.
pub open spec fn gives_name(attr: Seq<u8>, windows: bool) -> bool {
    kind(attr) == 0x30 && attr[value_at(attr) + 65] != 2 && kept_name(attr, windows) != seq![46u16]
        && kept_name(attr, windows) != seq![46u16, 46u16]
}

/// Whether attribute `k` is the last one that is `p`.
pub open spec fn is_last(attrs: Seq<Seq<u8>>, k: int, p: spec_fn(Seq<u8>) -> bool) -> bool {
    0 <= k < attrs.len() && p(attrs[k]) && forall|j: int|
        k < j < attrs.len() ==> !p(#[trigger] attrs[j])
}

/// Whether no attribute is `p`.
pub open spec fn is_none(attrs: Seq<Seq<u8>>, p: spec_fn(Seq<u8>) -> bool) -> bool {
    forall|j: int| 0 <= j < attrs.len() ==> !p(#[trigger] attrs[j])
}

proof fn flag_is_a_bit(flags: u32, b1: int)
    requires
        b1 == (flags / 0x100) % 0x100,
    ensures
        flags & 0x400 != 0 <==> b1 / 4 % 2 == 1,
{
    assert(flags & 0x400 != 0 <==> ((flags / 0x100) % 0x100) / 4 % 2 == 1) by (bit_vector);
}

/// What one attribute says to a record.
pub open spec fn is_read(
    rec: RecordView,
    attr: Seq<u8>,
    next: RecordView,
    windows: bool,
) -> bool {
    &&& next.reference == rec.reference
    &&& next.base == rec.base
    &&& next.base_seen == rec.base_seen
    &&& next.directory == rec.directory
    &&& if tells_size()(attr) {
        next.bytes == Some(told_size(attr) as u64)
    } else {
        next.bytes == rec.bytes
    }
    &&& if tells_dates()(attr) {
        is_date(next.modified, eight(attr, value_at(attr) + 8)) && is_date(
            next.accessed,
            eight(attr, value_at(attr) + 24),
        )
    } else {
        next.modified == rec.modified && next.accessed == rec.accessed
    }
    &&& next.reparse == (rec.reparse || tells_reparse(attr))
    &&& next.incomplete == (rec.incomplete || lists_outside(attr))
    &&& if lists_inside()(attr) {
        references_of(listed(attr)) == Ok::<Seq<u64>, Seq<char>>(next.expected)
    } else {
        next.expected == rec.expected
    }
    &&& if gives_name(attr, windows) {
        next.links == with_link(
            rec.links,
            LinkView {
                parent: eight(attr, value_at(attr)) as u64,
                name: kept_name(attr, windows),
            },
        )
    } else {
        next.links == rec.links
    }
}

proof fn the_value_is_read(attr: Seq<u8>)
    requires
        24 <= attr.len() <= usize::MAX,
        is_well_formed(attr),
        attr[8] == 0,
    ensures
        resident_value(attr) == Ok::<Seq<u8>, Seq<char>>(
            attr.subrange(value_at(attr), value_at(attr) + four(attr, 16)),
        ),
{
    numbers_are_spelt_by_their_bytes(attr, 16);
    numbers_are_spelt_by_their_bytes(attr, 20);
}

proof fn dates_are_read(rec: RecordView, attr: Seq<u8>)
    requires
        24 <= attr.len() <= usize::MAX,
        is_well_formed(attr),
        with_standard_information(rec, attr) is Ok,
    ensures
        ({
            let next = with_standard_information(rec, attr)->Ok_0;
            &&& is_date(next.modified, eight(attr, value_at(attr) + 8))
            &&& is_date(next.accessed, eight(attr, value_at(attr) + 24))
            &&& next.reparse == (rec.reparse || attr[value_at(attr) + 33] / 4 % 2 == 1)
            &&& next == (RecordView {
                modified: next.modified,
                accessed: next.accessed,
                reparse: next.reparse,
                ..rec
            })
        }),
{
    if attr[8] == 0 {
        the_value_is_read(attr);
        let v = value_at(attr);
        let value = attr.subrange(v, v + four(attr, 16));
        numbers_are_spelt_by_their_bytes(value, 8);
        numbers_are_spelt_by_their_bytes(value, 24);
        numbers_are_spelt_by_their_bytes(value, 32);
        let modified = eight(value, 8);
        let accessed = eight(value, 24);
        assert(modified == eight(attr, v + 8));
        assert(accessed == eight(attr, v + 24));
        if modified != 0 {
            instants_stand_at_their_distance((modified - 116_444_736_000_000_000) * 100);
        }
        if accessed != 0 {
            instants_stand_at_their_distance((accessed - 116_444_736_000_000_000) * 100);
        }
        let flags = four(value, 32) as u32;
        assert(flags == attr[v + 32] + 0x100 * attr[v + 33] + 0x1_0000 * attr[v + 34] + 0x100_0000
            * attr[v + 35]);
        assert((flags / 0x100) % 0x100 == attr[v + 33]);
        flag_is_a_bit(flags, attr[v + 33] as int);
    }
}

proof fn a_link_is_read(rec: RecordView, attr: Seq<u8>, number: u64, windows: bool)
    requires
        24 <= attr.len() <= usize::MAX,
        is_well_formed(attr),
        kind(attr) == 0x30,
        with_file_name(rec, attr, number, windows) is Ok,
    ensures
        with_file_name(rec, attr, number, windows)->Ok_0 == if gives_name(attr, windows) {
            RecordView {
                links: with_link(
                    rec.links,
                    LinkView {
                        parent: eight(attr, value_at(attr)) as u64,
                        name: kept_name(attr, windows),
                    },
                ),
                ..rec
            }
        } else {
            rec
        },
{
    if attr[8] == 0 {
        the_value_is_read(attr);
        let v = value_at(attr);
        let value = attr.subrange(v, v + four(attr, 16));
        numbers_are_spelt_by_their_bytes(value, 0);
        a_name_is_read(attr, value);
    }
}

proof fn an_attribute_is_read(rec: RecordView, attr: Seq<u8>, number: u64, windows: bool)
    requires
        24 <= attr.len() <= usize::MAX,
        is_well_formed(attr),
        with_attribute(rec, attr, number, windows) is Ok,
    ensures
        is_read(rec, attr, with_attribute(rec, attr, number, windows)->Ok_0, windows),
{
    numbers_are_spelt_by_their_bytes(attr, 0);
    if kind(attr) == 0x10 {
        dates_are_read(rec, attr);
    } else if kind(attr) == 0x30 {
        a_link_is_read(rec, attr, number, windows);
    } else if kind(attr) == 0x20 {
        if attr[8] == 0 {
            the_value_is_read(attr);
        }
    } else if kind(attr) == 0x80 {
        numbers_are_spelt_by_their_bytes(attr, 16);
        if attr[8] == 0 {
            the_value_is_read(attr);
        } else {
            numbers_are_spelt_by_their_bytes(attr, 48);
        }
    }
}

proof fn a_name_is_read(attr: Seq<u8>, value: Seq<u8>)
    requires
        24 <= attr.len() <= usize::MAX,
        is_well_formed(attr),
        attr[8] == 0,
        value == attr.subrange(value_at(attr), value_at(attr) + four(attr, 16)),
    ensures
        value.len() >= 66 ==> sliced(value, 0, 66) is Ok && sliced(value, 0, 66)->Ok_0[64]
            == attr[value_at(attr) + 64] && sliced(value, 0, 66)->Ok_0[65] == attr[value_at(attr)
            + 65],
        value.len() < 66 ==> sliced(value, 0, 66) is Err,
        value.len() >= 66 + 2 * attr[value_at(attr) + 64] ==> sliced(
            value,
            66,
            attr[value_at(attr) + 64] * 2,
        ) is Ok && units_of(sliced(value, 66, attr[value_at(attr) + 64] * 2)->Ok_0) == spelt_name(
            attr,
        ),
        value.len() < 66 + 2 * attr[value_at(attr) + 64] ==> sliced(
            value,
            66,
            attr[value_at(attr) + 64] * 2,
        ) is Err,
        value.len() >= 8 ==> eight(value, 0) == eight(attr, value_at(attr)),
{
    let v = value_at(attr);
    let n = attr[v + 64] as int;
    if value.len() >= 66 + 2 * n {
        let raw = sliced(value, 66, n * 2)->Ok_0;
        assert forall|k: int| 0 <= k < n implies units_of(raw)[k] == spelt_name(attr)[k] by {
            assert(raw[2 * k] == attr[v + 66 + 2 * k]);
            assert(raw[2 * k + 1] == attr[v + 66 + 2 * k + 1]);
        }
        assert(units_of(raw) =~= spelt_name(attr));
    }
}

/// Whether an attribute can be read into the record in slot `number`.
pub open spec fn is_readable(attr: Seq<u8>, number: u64, windows: bool) -> bool {
    let v = value_at(attr);
    let length = four(attr, 16);
    if kind(attr) == 0x10 {
        attr[8] == 0 && 36 <= length
    } else if kind(attr) == 0x20 {
        attr[8] == 0 ==> exists|refs: Seq<u64>|
            #[trigger] stand_in_list(attr.subrange(v, v + length), 0, refs)
    } else if kind(attr) == 0x30 {
        &&& attr[8] == 0
        &&& 66 <= length
        &&& attr[v + 65] != 2 ==> {
            &&& attr[v + 65] <= 3
            &&& attr[v + 64] > 0
            &&& 66 + 2 * attr[v + 64] <= length
            &&& forall|k: int|
                0 <= k < attr[v + 64] ==> {
                    let c = #[trigger] spelt_name(attr)[k];
                    c != 0 && c != 47 && c != 92 && c != 58
                }
            &&& gives_name(attr, windows) || number == 5
        }
    } else {
        true
    }
}

/// Whether `refs` are the references in the entries of an attribute list from
/// `at` on: entry after entry, up to the end or to nothing but zeros.
pub open spec fn stand_in_list(data: Seq<u8>, at: int, refs: Seq<u64>) -> bool
    decreases refs.len(),
{
    let ends = forall|i: int| at <= i < data.len() ==> data[i] == 0;
    if refs.len() == 0 {
        ends
    } else {
        let length = two(data, at + 4);
        &&& !ends
        &&& at + 6 <= data.len()
        &&& 26 <= length
        &&& at + length <= data.len()
        &&& refs[0] == eight(data, at + 16)
        &&& stand_in_list(data, at + length, refs.drop_first())
    }
}

proof fn listed_references_stand_there(data: Seq<u8>, at: int)
    requires
        0 <= at,
        data.len() <= usize::MAX,
    ensures
        listed_references(data, at) matches Ok(refs) ==> stand_in_list(data, at, refs),
    decreases data.len() - at,
{
    if at < data.len() && listed_references(data, at) is Ok && !zero_from(data, at) {
        numbers_are_spelt_by_their_bytes(data, at + 4);
        let length = two(data, at + 4);
        let entry = data.subrange(at, at + length);
        le_eight(entry.subrange(16, 24));
        listed_references_stand_there(data, at + length);
        let refs = listed_references(data, at)->Ok_0;
        assert(refs.drop_first() =~= listed_references(data, at + length)->Ok_0);
    }
}

proof fn standing_references_are_listed(data: Seq<u8>, at: int, refs: Seq<u64>)
    requires
        0 <= at,
        data.len() <= usize::MAX,
        stand_in_list(data, at, refs),
    ensures
        listed_references(data, at) == Ok::<Seq<u64>, Seq<char>>(refs),
    decreases refs.len(),
{
    if refs.len() == 0 {
        assert(refs =~= seq![]);
        assert(zero_from(data, at));
    } else {
        assert(!zero_from(data, at));
        numbers_are_spelt_by_their_bytes(data, at + 4);
        let length = two(data, at + 4);
        let entry = data.subrange(at, at + length);
        le_eight(entry.subrange(16, 24));
        standing_references_are_listed(data, at + length, refs.drop_first());
        assert(seq![refs[0]] + refs.drop_first() =~= refs);
    }
}

/// An attribute list names exactly the records in its entries, in increasing
/// order and each once; it is refused only where an entry does not fit.
pub proof fn lists_name_the_records_of_their_entries(data: Seq<u8>, refs: Seq<u64>)
    requires
        data.len() <= usize::MAX,
    ensures
        stand_in_list(data, 0, refs) ==> references_of(data) is Ok && (forall|x: u64|
            #[trigger] references_of(data)->Ok_0.contains(x) <==> refs.contains(x)) && (forall|
            i: int,
            j: int,
        |
            0 <= i < j < references_of(data)->Ok_0.len() ==> references_of(data)->Ok_0[i]
                < references_of(data)->Ok_0[j]),
        references_of(data) is Ok ==> exists|listed: Seq<u64>|
            #[trigger] stand_in_list(data, 0, listed),
{
    listed_references_stand_there(data, 0);
    if stand_in_list(data, 0, refs) {
        standing_references_are_listed(data, 0, refs);
        in_order_keeps_the_numbers(refs);
    }
}

proof fn readable_names(attr: Seq<u8>, number: u64, windows: bool, rec: RecordView)
    requires
        24 <= attr.len() <= usize::MAX,
        is_well_formed(attr),
        kind(attr) == 0x30,
    ensures
        with_file_name(rec, attr, number, windows) is Ok <==> is_readable(attr, number, windows),
{
    if attr[8] == 0 {
        the_value_is_read(attr);
        let v = value_at(attr);
        let value = attr.subrange(v, v + four(attr, 16));
        numbers_are_spelt_by_their_bytes(value, 0);
        a_name_is_read(attr, value);
        let name = spelt_name(attr);
        assert((exists|i: int| 0 <= i < name.len() && forbidden_unit(#[trigger] name[i])) <==> !(
        forall|k: int|
            0 <= k < attr[v + 64] ==> {
                let c = #[trigger] spelt_name(attr)[k];
                c != 0 && c != 47 && c != 92 && c != 58
            }));
    }
}

proof fn readable_attributes(attr: Seq<u8>, number: u64, windows: bool, rec: RecordView)
    requires
        24 <= attr.len() <= usize::MAX,
        is_well_formed(attr),
    ensures
        with_attribute(rec, attr, number, windows) is Ok <==> is_readable(attr, number, windows),
{
    numbers_are_spelt_by_their_bytes(attr, 0);
    if kind(attr) == 0x30 {
        readable_names(attr, number, windows, rec);
    } else if attr[8] == 0 {
        the_value_is_read(attr);
        let v = value_at(attr);
        let value = attr.subrange(v, v + four(attr, 16));
        if kind(attr) == 0x10 {
            numbers_are_spelt_by_their_bytes(value, 8);
            numbers_are_spelt_by_their_bytes(value, 24);
            numbers_are_spelt_by_their_bytes(value, 32);
        } else if kind(attr) == 0x20 {
            lists_name_the_records_of_their_entries(value, seq![]);
            assert forall|refs: Seq<u64>| #[trigger] stand_in_list(value, 0, refs) implies references_of(
                value,
            ) is Ok by {
                lists_name_the_records_of_their_entries(value, refs);
            }
        }
    } else if kind(attr) == 0x80 {
        numbers_are_spelt_by_their_bytes(attr, 16);
        numbers_are_spelt_by_their_bytes(attr, 48);
    }
}

/// Whether an attribute gives the file the name `link`.
pub open spec fn names(attr: Seq<u8>, link: LinkView, windows: bool) -> bool {
    gives_name(attr, windows) && link.parent == eight(attr, value_at(attr)) && link.name
        == kept_name(attr, windows)
}

/// What attributes say to a record, whatever it held before.
pub open spec fn are_read(
    rec: RecordView,
    attrs: Seq<Seq<u8>>,
    done: RecordView,
    windows: bool,
) -> bool {
    &&& done.reference == rec.reference
    &&& done.base == rec.base
    &&& done.base_seen == rec.base_seen
    &&& done.directory == rec.directory
    &&& is_none(attrs, tells_size()) ==> done.bytes == rec.bytes
    &&& forall|k: int| #[trigger]
        is_last(attrs, k, tells_size()) ==> done.bytes == Some(told_size(attrs[k]) as u64)
    &&& is_none(attrs, tells_dates()) ==> done.modified == rec.modified && done.accessed
        == rec.accessed
    &&& forall|k: int| #[trigger]
        is_last(attrs, k, tells_dates()) ==> is_date(
            done.modified,
            eight(attrs[k], value_at(attrs[k]) + 8),
        ) && is_date(done.accessed, eight(attrs[k], value_at(attrs[k]) + 24))
    &&& is_none(attrs, lists_inside()) ==> done.expected == rec.expected
    &&& forall|k: int| #[trigger]
        is_last(attrs, k, lists_inside()) ==> references_of(listed(attrs[k])) == Ok::<
            Seq<u64>,
            Seq<char>,
        >(done.expected)
    &&& done.reparse <==> rec.reparse || exists|k: int|
        0 <= k < attrs.len() && tells_reparse(#[trigger] attrs[k])
    &&& done.incomplete <==> rec.incomplete || exists|k: int|
        0 <= k < attrs.len() && lists_outside(#[trigger] attrs[k])
    &&& forall|link: LinkView| #[trigger]
        done.links.contains(link) <==> rec.links.contains(link) || exists|k: int|
            0 <= k < attrs.len() && names(#[trigger] attrs[k], link, windows)
}

proof fn later_attributes_decide(
    rec: RecordView,
    attrs: Seq<Seq<u8>>,
    next: RecordView,
    done: RecordView,
    windows: bool,
)
    requires
        attrs.len() > 0,
        is_read(rec, attrs[0], next, windows),
        are_read(next, attrs.drop_first(), done, windows),
    ensures
        are_read(rec, attrs, done, windows),
{
    let rest = attrs.drop_first();
    assert forall|p: spec_fn(Seq<u8>) -> bool, k: int| #[trigger] is_last(attrs, k, p) && k
        > 0 implies is_last(rest, k - 1, p) by {
        assert(rest[k - 1] == attrs[k]);
        assert forall|j: int| k - 1 < j < rest.len() implies !p(#[trigger] rest[j]) by {
            assert(rest[j] == attrs[j + 1]);
        }
    }
    assert forall|p: spec_fn(Seq<u8>) -> bool| #[trigger] is_last(attrs, 0, p) || is_none(
        attrs,
        p,
    ) implies is_none(rest, p) by {
        assert forall|j: int| 0 <= j < rest.len() implies !p(#[trigger] rest[j]) by {
            assert(rest[j] == attrs[j + 1]);
        }
    }
    assert(is_none(attrs, tells_size()) ==> is_none(rest, tells_size()) && !tells_size()(attrs[0]));
    assert(is_none(attrs, tells_dates()) ==> is_none(rest, tells_dates()) && !tells_dates()(
        attrs[0],
    ));
    assert(is_none(attrs, lists_inside()) ==> is_none(rest, lists_inside()) && !lists_inside()(
        attrs[0],
    ));
    assert forall|k: int| #[trigger] is_last(attrs, k, tells_size()) implies done.bytes == Some(
        told_size(attrs[k]) as u64,
    ) by {
        if k == 0 {
            assert(is_none(rest, tells_size()));
        } else {
            assert(is_last(rest, k - 1, tells_size()));
        }
    }
    assert forall|k: int| #[trigger] is_last(attrs, k, tells_dates()) implies is_date(
        done.modified,
        eight(attrs[k], value_at(attrs[k]) + 8),
    ) && is_date(done.accessed, eight(attrs[k], value_at(attrs[k]) + 24)) by {
        if k == 0 {
            assert(is_none(rest, tells_dates()));
        } else {
            assert(is_last(rest, k - 1, tells_dates()));
        }
    }
    assert forall|k: int| #[trigger] is_last(attrs, k, lists_inside()) implies references_of(
        listed(attrs[k]),
    ) == Ok::<Seq<u64>, Seq<char>>(done.expected) by {
        if k == 0 {
            assert(is_none(rest, lists_inside()));
        } else {
            assert(is_last(rest, k - 1, lists_inside()));
        }
    }
    assert forall|k: int| 0 <= k < rest.len() implies #[trigger] rest[k] == attrs[k + 1] by {}
    marks_come_from_attributes(rec, attrs, next, done, windows);
}

proof fn marks_come_from_attributes(
    rec: RecordView,
    attrs: Seq<Seq<u8>>,
    next: RecordView,
    done: RecordView,
    windows: bool,
)
    requires
        attrs.len() > 0,
        is_read(rec, attrs[0], next, windows),
        are_read(next, attrs.drop_first(), done, windows),
    ensures
        done.reparse <==> rec.reparse || exists|k: int|
            0 <= k < attrs.len() && tells_reparse(#[trigger] attrs[k]),
        done.incomplete <==> rec.incomplete || exists|k: int|
            0 <= k < attrs.len() && lists_outside(#[trigger] attrs[k]),
        forall|link: LinkView| #[trigger]
            done.links.contains(link) <==> rec.links.contains(link) || exists|k: int|
                0 <= k < attrs.len() && names(#[trigger] attrs[k], link, windows),
{
    let rest = attrs.drop_first();
    assert(forall|k: int| 0 <= k < rest.len() ==> #[trigger] rest[k] == attrs[k + 1]);
    assert(forall|k: int| 0 < k < attrs.len() ==> #[trigger] attrs[k] == rest[k - 1]);
    assert forall|link: LinkView| #[trigger] done.links.contains(link) <==> rec.links.contains(link)
        || exists|k: int| 0 <= k < attrs.len() && names(#[trigger] attrs[k], link, windows) by {
        let added = LinkView {
            parent: eight(attrs[0], value_at(attrs[0])) as u64,
            name: kept_name(attrs[0], windows),
        };
        assert(next.links.contains(link) <==> rec.links.contains(link) || names(
            attrs[0],
            link,
            windows,
        )) by {
            let pushed = rec.links.push(added);
            assert(pushed[rec.links.len() as int] == added);
            if rec.links.contains(link) {
                let j = choose|j: int| 0 <= j < rec.links.len() && rec.links[j] == link;
                assert(pushed[j] == link);
            }
            if names(attrs[0], link, windows) {
                assert(link == added);
            }
        }
        if done.links.contains(link) && !next.links.contains(link) {
            let k = choose|k: int| 0 <= k < rest.len() && names(#[trigger] rest[k], link, windows);
            assert(names(attrs[k + 1], link, windows));
        }
        if exists|k: int| 0 <= k < attrs.len() && names(#[trigger] attrs[k], link, windows) {
            let k = choose|k: int|
                0 <= k < attrs.len() && names(#[trigger] attrs[k], link, windows);
            if k > 0 {
                assert(names(rest[k - 1], link, windows));
            }
        }
    }
    if exists|k: int| 0 <= k < attrs.len() && tells_reparse(#[trigger] attrs[k]) {
        let k = choose|k: int| 0 <= k < attrs.len() && tells_reparse(#[trigger] attrs[k]);
        assert(k == 0 || tells_reparse(rest[k - 1]));
    }
    if exists|k: int| 0 <= k < rest.len() && tells_reparse(#[trigger] rest[k]) {
        let k = choose|k: int| 0 <= k < rest.len() && tells_reparse(#[trigger] rest[k]);
        assert(tells_reparse(attrs[k + 1]));
    }
    if exists|k: int| 0 <= k < attrs.len() && lists_outside(#[trigger] attrs[k]) {
        let k = choose|k: int| 0 <= k < attrs.len() && lists_outside(#[trigger] attrs[k]);
        assert(k == 0 || lists_outside(rest[k - 1]));
    }
    if exists|k: int| 0 <= k < rest.len() && lists_outside(#[trigger] rest[k]) {
        let k = choose|k: int| 0 <= k < rest.len() && lists_outside(#[trigger] rest[k]);
        assert(lists_outside(attrs[k + 1]));
    }
}

proof fn attributes_are_read(rec: RecordView, attrs: Seq<Seq<u8>>, number: u64, windows: bool)
    requires
        forall|k: int|
            0 <= k < attrs.len() ==> 24 <= (#[trigger] attrs[k]).len() <= usize::MAX
                && is_well_formed(attrs[k]),
    ensures
        with_attributes(rec, attrs, number, windows) is Ok <==> forall|k: int|
            0 <= k < attrs.len() ==> is_readable(#[trigger] attrs[k], number, windows),
        with_attributes(rec, attrs, number, windows) matches Ok(done) ==> are_read(
            rec,
            attrs,
            done,
            windows,
        ),
    decreases attrs.len(),
{
    if attrs.len() > 0 {
        let rest = attrs.drop_first();
        assert(forall|k: int| 0 <= k < rest.len() ==> #[trigger] rest[k] == attrs[k + 1]);
        readable_attributes(attrs[0], number, windows, rec);
        if with_attribute(rec, attrs[0], number, windows) is Ok {
            let next = with_attribute(rec, attrs[0], number, windows)->Ok_0;
            an_attribute_is_read(rec, attrs[0], number, windows);
            attributes_are_read(next, rest, number, windows);
            if with_attributes(next, rest, number, windows) is Ok {
                later_attributes_decide(
                    rec,
                    attrs,
                    next,
                    with_attributes(next, rest, number, windows)->Ok_0,
                    windows,
                );
            }
            assert((forall|k: int|
                0 <= k < attrs.len() ==> is_readable(#[trigger] attrs[k], number, windows)) <==> (
            forall|k: int|
                0 <= k < rest.len() ==> is_readable(#[trigger] rest[k], number, windows))) by {
                if forall|k: int|
                    0 <= k < rest.len() ==> is_readable(#[trigger] rest[k], number, windows) {
                    assert forall|k: int| 0 <= k < attrs.len() implies is_readable(
                        #[trigger] attrs[k],
                        number,
                        windows,
                    ) by {
                        if k > 0 {
                            assert(attrs[k] == rest[k - 1]);
                        }
                    }
                }
            }
        }
    }
}

proof fn bits_of_a_header(flags: u16, number: u64, sequence: u64)
    requires
        number < 0x1_0000_0000_0000,
        sequence < 0x1_0000,
    ensures
        flags & 1 != 0 <==> flags % 2 == 1,
        flags & 2 != 0 <==> flags / 2 % 2 == 1,
        number | (sequence << 48) == number + sequence * 0x1_0000_0000_0000,
{
    assert(flags & 1 != 0 <==> flags % 2 == 1) by (bit_vector);
    assert(flags & 2 != 0 <==> flags / 2 % 2 == 1) by (bit_vector);
    assert(number | (sequence << 48) == number + sequence * 0x1_0000_0000_0000) by (bit_vector)
        requires
            number < 0x1_0000_0000_0000,
            sequence < 0x1_0000,
    ;
}

/// The attributes that stand in a record, where there are such.
pub open spec fn holds_attributes(data: Seq<u8>, attrs: Seq<Seq<u8>>) -> bool {
    &&& 28 <= data.len()
    &&& four(data, 24) <= data.len()
    &&& 42 <= two(data, 20)
    &&& two(data, 20) % 8 == 0
    &&& stand_in(data.take(four(data, 24)), two(data, 20), attrs)
}

/// What the header of a record says.
pub open spec fn header(data: Seq<u8>, number: u64) -> RecordView {
    RecordView {
        reference: (number + two(data, 16) * 0x1_0000_0000_0000) as u64,
        base: eight(data, 32) as u64,
        base_seen: eight(data, 32) == 0,
        directory: data[22] as int / 2 % 2 == 1,
        ..RecordView::blank()
    }
}

proof fn flags_stand_in_the_low_byte(low: u8, high: u8, flags: u16)
    requires
        flags == low + 0x100 * high,
    ensures
        flags % 2 == low % 2,
        flags as int / 2 % 2 == low as int / 2 % 2,
{
}

#[verifier::rlimit(40)]
proof fn a_record_is_its_header_and_attributes(
    data: Seq<u8>,
    number: u64,
    windows: bool,
    attrs: Seq<Seq<u8>>,
)
    requires
        data.len() <= usize::MAX,
        number < 0x1_0000_0000_0000,
        holds_attributes(data, attrs),
        40 <= data.len(),
        data.take(4) == seq![0x46u8, 0x49, 0x4c, 0x45],
        data[22] % 2 == 1,
    ensures
        record_of(data, number, windows) == match with_attributes(
            header(data, number),
            attrs,
            number,
            windows,
        ) {
            Ok(rec) => Ok::<Option<RecordView>, Seq<char>>(Some(rec)),
            Err(e) => Err(e),
        },
        0 <= eight(data, 32) <= u64::MAX,
        0 <= number + two(data, 16) * 0x1_0000_0000_0000 <= u64::MAX,
{
    attributes_are_those_that_stand_there(data, attrs);
    numbers_are_spelt_by_their_bytes(data, 22);
    numbers_are_spelt_by_their_bytes(data, 32);
    numbers_are_spelt_by_their_bytes(data, 16);
    assert(sliced(data, 0, 4) == Ok::<Seq<u8>, Seq<char>>(data.take(4)));
    assert(spells_file(data.take(4)));
    let flags = two(data, 22) as u16;
    bits_of_a_header(flags, number, two(data, 16) as u64);
    flags_stand_in_the_low_byte(data[22], data[23], flags);
    assert(attributes_of(data) == Ok::<Seq<Seq<u8>>, Seq<char>>(attrs));
    let rec = RecordView {
        reference: number | ((two(data, 16) as u64) << 48),
        base: eight(data, 32) as u64,
        base_seen: eight(data, 32) == 0,
        directory: flags & 2 != 0,
        ..RecordView::blank()
    };
    assert(rec == header(data, number));
}

/// A slot in use says what its bytes say. The reference is made of the number of
/// the slot and the two bytes at 16, the base of the eight bytes at 32, and the
/// second flag at 22 marks a folder. The size of the file is the 64-bit number in
/// the bytes 48 to 55 of the last data attribute without a name that starts at its
/// first cluster, or how long the value of such an attribute in the record is; the
/// dates are those at 8 and 24 of the last standard information; the other parts
/// are those in the entries of the last list; and the names are those of the file
/// name attributes.
pub proof fn records_say_what_their_bytes_say(
    data: Seq<u8>,
    number: u64,
    windows: bool,
    attrs: Seq<Seq<u8>>,
)
    requires
        data.len() <= usize::MAX,
        number < 0x1_0000_0000_0000,
        holds_attributes(data, attrs),
        40 <= data.len(),
        data.take(4) == seq![0x46u8, 0x49, 0x4c, 0x45],
        data[22] % 2 == 1,
    ensures
        record_of(data, number, windows) is Ok <==> forall|k: int|
            0 <= k < attrs.len() ==> is_readable(#[trigger] attrs[k], number, windows),
        record_of(data, number, windows) matches Ok(found) ==> {
            &&& found is Some
            &&& found->0.reference == number + two(data, 16) * 0x1_0000_0000_0000
            &&& found->0.base == eight(data, 32)
            &&& found->0.base_seen == (eight(data, 32) == 0)
            &&& found->0.directory == (data[22] / 2 % 2 == 1)
            &&& is_none(attrs, tells_size()) ==> found->0.bytes is None
            &&& forall|k: int| #[trigger]
                is_last(attrs, k, tells_size()) ==> found->0.bytes is Some && found->0.bytes->0 == (
                if attrs[k][8] == 0 {
                    four(attrs[k], 16)
                } else {
                    eight(attrs[k], 48)
                })
            &&& is_none(attrs, tells_dates()) ==> found->0.modified is None && found->0.accessed is None
            &&& forall|k: int| #[trigger]
                is_last(attrs, k, tells_dates()) ==> is_date(
                    found->0.modified,
                    eight(attrs[k], two(attrs[k], 20) + 8),
                ) && is_date(found->0.accessed, eight(attrs[k], two(attrs[k], 20) + 24))
            &&& is_none(attrs, lists_inside()) ==> found->0.expected.len() == 0
            &&& forall|k: int, refs: Seq<u64>|
                is_last(attrs, k, lists_inside()) && stand_in_list(listed(attrs[k]), 0, refs)
                    ==> forall|x: u64| #[trigger]
                    found->0.expected.contains(x) <==> refs.contains(x)
            &&& found->0.reparse <==> exists|k: int|
                0 <= k < attrs.len() && tells_reparse(#[trigger] attrs[k])
            &&& found->0.incomplete <==> exists|k: int|
                0 <= k < attrs.len() && lists_outside(#[trigger] attrs[k])
            &&& forall|link: LinkView| #[trigger]
                found->0.links.contains(link) <==> exists|k: int|
                    0 <= k < attrs.len() && names(#[trigger] attrs[k], link, windows)
        },
{
    standing_attributes_are_long(data.take(four(data, 24)), two(data, 20), attrs);
    a_record_is_its_header_and_attributes(data, number, windows, attrs);
    let rec = header(data, number);
    attributes_are_read(rec, attrs, number, windows);
    if record_of(data, number, windows) is Ok {
        let done = with_attributes(rec, attrs, number, windows)->Ok_0;
        assert(are_read(rec, attrs, done, windows));
        assert forall|k: int, refs: Seq<u64>|
            is_last(attrs, k, lists_inside()) && stand_in_list(
                listed(attrs[k]),
                0,
                refs,
            ) implies forall|x: u64| #[trigger]
            done.expected.contains(x) <==> refs.contains(x) by {
            assert(listed(attrs[k]).len() <= attrs[k].len());
            lists_name_the_records_of_their_entries(listed(attrs[k]), refs);
            assert(references_of(listed(attrs[k])) == Ok::<Seq<u64>, Seq<char>>(done.expected));
            assert forall|x: u64| #[trigger] done.expected.contains(x) <==> refs.contains(x) by {
                assert(references_of(listed(attrs[k]))->Ok_0.contains(x) <==> refs.contains(x));
            }
        }
    }
}

/// A slot that is unused or all zeros says nothing, and one that starts otherwise
/// is refused.
pub proof fn unused_slots_say_nothing(data: Seq<u8>, number: u64, windows: bool)
    requires
        24 <= data.len() <= usize::MAX,
    ensures
        data.take(4) == seq![0x46u8, 0x49, 0x4c, 0x45] && data[22] % 2 == 0 ==> record_of(
            data,
            number,
            windows,
        ) == Ok::<Option<RecordView>, Seq<char>>(None),
        (forall|i: int| 0 <= i < data.len() ==> data[i] == 0) ==> record_of(data, number, windows)
            == Ok::<Option<RecordView>, Seq<char>>(None),
        data.take(4) != seq![0x46u8, 0x49, 0x4c, 0x45] && (exists|i: int|
            0 <= i < data.len() && data[i] != 0) ==> record_of(data, number, windows) is Err,
{
    numbers_are_spelt_by_their_bytes(data, 22);
    assert(sliced(data, 0, 4) == Ok::<Seq<u8>, Seq<char>>(data.take(4)));
    let flags = two(data, 22) as u16;
    bits_of_a_header(flags, 0, 0);
    flags_stand_in_the_low_byte(data[22], data[23], flags);
    assert(spells_file(data.take(4)) <==> data.take(4) =~= seq![0x46u8, 0x49, 0x4c, 0x45]);
}

} // verus!
