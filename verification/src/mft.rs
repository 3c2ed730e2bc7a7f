//! NTFS 3.x decoder. Raw bytes never become structures; every offset is checked.
use vstd::prelude::*;
use crate::sort::{in_order, sort_distinct};
use crate::time::Timestamp;
use crate::bytes::{is_power_of_two, power_of_two};
use crate::bytes::{is_zero_from, le, le_bound, number_at, pow256, pow256_values, read_le, slice, sliced, u16_at, u32_at, u64_at, zero_from};

pub mod index;
pub mod index_laws;
pub mod laws;
pub mod layout;
pub mod order;
pub mod place_laws;
pub mod record;
pub mod record_laws;
pub mod report;
pub mod report_laws;
pub mod volume;
pub mod volume_laws;
use crate::text::{char_is_scalar, chars_of};

verus! {

/// Whether four bytes spell `FILE`.
pub open spec fn spells_file(signature: Seq<u8>) -> bool {
    signature[0] == 0x46 && signature[1] == 0x49 && signature[2] == 0x4C && signature[3] == 0x45
}

/// Why a record's sectors cannot be repaired, or where its update sequence
/// stands: offset, count and sector stride.
pub open spec fn fixup_layout(data: Seq<u8>) -> Result<(int, int, int), Seq<char>> {
    match sliced(data, 0, 4) {
        Err(e) => Err(e),
        Ok(signature) => if !spells_file(signature) {
            Err("Invalid FILE signature"@)
        } else {
            match (number_at(data, 4, 2), number_at(data, 6, 2)) {
                (Err(e), _) => Err(e),
                (_, Err(e)) => Err(e),
                (Ok(offset), Ok(count)) => if count < 2 || data.len() as int % (count - 1) != 0 {
                    Err("Invalid update sequence array"@)
                } else {
                    let stride = data.len() as int / (count - 1);
                    if stride < 512 || !power_of_two(stride) || offset < 8 || offset + count * 2
                        > stride - 2 {
                        Err("Invalid sector fixup geometry"@)
                    } else {
                        Ok((offset, count, stride))
                    }
                },
            }
        },
    }
}

/// Whether the two bytes that end sector `i` equal those at `at`.
pub open spec fn sector_ends_with(data: Seq<u8>, stride: int, i: int, at: int) -> bool {
    data[i * stride - 2] == data[at] && data[i * stride - 1] == data[at + 1]
}

/// Whether every sector ends with the update sequence number.
pub open spec fn sectors_are_raw(data: Seq<u8>, offset: int, count: int, stride: int) -> bool {
    forall|i: int| 1 <= i < count ==> #[trigger] sector_ends_with(data, stride, i, offset)
}

/// Whether every sector ends with its original bytes.
pub open spec fn sectors_are_restored(data: Seq<u8>, offset: int, count: int, stride: int) -> bool {
    forall|i: int|
        1 <= i < count ==> #[trigger] sector_ends_with(data, stride, i, offset + i * 2)
}

/// The record with the original bytes back at the end of each sector.
pub open spec fn repaired(data: Seq<u8>, offset: int, stride: int) -> Seq<u8> {
    Seq::new(
        data.len(),
        |k: int|
            if k % stride >= stride - 2 {
                data[offset + (k / stride + 1) * 2 + (k % stride - (stride - 2))]
            } else {
                data[k]
            },
    )
}

/// What `fixup` answers, and the record it leaves behind.
pub open spec fn fixup_result(data: Seq<u8>, allow_restored: bool) -> (
    Result<(), Seq<char>>,
    Seq<u8>,
) {
    match fixup_layout(data) {
        Err(e) => (Err(e), data),
        Ok((offset, count, stride)) => if sectors_are_raw(data, offset, count, stride) {
            (Ok(()), repaired(data, offset, stride))
        } else if allow_restored && sectors_are_restored(data, offset, count, stride) {
            (Ok(()), data)
        } else {
            (Err("NTFS sector fixup mismatch (record changed or damaged)"@), data)
        },
    }
}

/// Checks that the sectors of a record belong together and puts their original
/// last bytes back. A record whose bytes are back already is accepted only with
/// `allow_restored`.
pub fn fixup(data: &mut [u8], allow_restored: bool) -> (r: Result<(), String>)
    ensures
        final(data)@ == fixup_result(old(data)@, allow_restored).1,
        match r {
            Ok(_) => fixup_result(old(data)@, allow_restored).0 == Ok::<(), Seq<char>>(()),
            Err(e) => fixup_result(old(data)@, allow_restored).0 == Err::<(), Seq<char>>(e@),
        },
{
    let ghost before = data@;
    assert(data.len() == before.len());
    let (offset, count, stride) = check_fixup(data)?;
    let mut raw: bool = true;
    let mut restored: bool = true;
    let mut i: usize = 1;
    proof {
        sector_bounds(before, offset as int, count as int, stride as int);
    }
    while i < count
        invariant
            1 <= i <= count,
            data@ == before,
            fixup_layout(before) == Ok::<(int, int, int), Seq<char>>((offset as int, count as int, stride as int)),
            forall|k: int| 1 <= k < count ==> 0 <= #[trigger] (k * stride) - 2 && k * stride <= before.len(),
            before.len() <= usize::MAX,
            offset + count * 2 <= before.len(),
            raw == (forall|k: int| 1 <= k < i ==> #[trigger] sector_ends_with(before, stride as int, k, offset as int)),
            restored == (forall|k: int| 1 <= k < i ==> #[trigger] sector_ends_with(before, stride as int, k, offset + k * 2)),
        decreases count - i,
    {
        assert((i as int) * (stride as int) - 2 >= 0 && (i as int) * (stride as int) <= before.len());
        let end: usize = i * stride;
        if data[end - 2] != data[offset] || data[end - 1] != data[offset + 1] {
            assert(!sector_ends_with(before, stride as int, i as int, offset as int));
            raw = false;
        }
        if data[end - 2] != data[offset + i * 2] || data[end - 1] != data[offset + i * 2 + 1] {
            assert(!sector_ends_with(before, stride as int, i as int, offset + i * 2));
            restored = false;
        }
        i += 1;
    }
    if !raw {
        if allow_restored && restored {
            return Ok(());
        }
        return Err("NTFS sector fixup mismatch (record changed or damaged)".to_string());
    }
    let mut i: usize = 1;
    while i < count
        invariant
            1 <= i <= count,
            data@.len() == before.len(),
            stride >= 512,
            count >= 2,
            (count - 1) * stride == before.len(),
            forall|k: int| 1 <= k < count ==> 0 <= #[trigger] (k * stride) - 2 && k * stride <= before.len(),
            before.len() <= usize::MAX,
            8 <= offset,
            offset + count * 2 <= stride - 2,
            forall|k: int| 0 <= k < (i - 1) * stride ==> #[trigger] data@[k] == repaired(before, offset as int, stride as int)[k],
            forall|k: int| (i - 1) * stride <= k < before.len() ==> #[trigger] data@[k] == before[k],
            forall|k: int| 0 <= k < stride - 2 ==> #[trigger] data@[k] == before[k],
        decreases count - i,
    {
        let ghost prior = data@;
        assert((i as int) * (stride as int) - 2 >= 0 && (i as int) * (stride as int) <= before.len());
        assert((i as int) * (stride as int) == (i - 1) * (stride as int) + stride) by (nonlinear_arith);
        let end: usize = i * stride;
        let low: u8 = data[offset + i * 2];
        let high: u8 = data[offset + i * 2 + 1];
        data[end - 2] = low;
        data[end - 1] = high;
        proof {
            let s = stride as int;
            assert forall|k: int| 0 <= k < i * s implies #[trigger] data@[k] == repaired(before, offset as int, s)[k] by {
                if k < (i - 1) * s {
                    assert(data@[k] == prior[k]);
                } else {
                    let q = k - (i - 1) * s;
                    assert(0 <= q < s);
                    vstd::arithmetic::div_mod::lemma_fundamental_div_mod_converse(k, s, i - 1, q);
                    if q < s - 2 {
                        assert(data@[k] == prior[k]);
                    }
                }
            }
            assert forall|k: int| 0 <= k < s - 2 implies #[trigger] data@[k] == before[k] by {
                assert(end - 2 >= s - 2) by {
                    assert(i * s >= s) by (nonlinear_arith) requires i >= 1, s >= 512;
                }
                assert(data@[k] == prior[k]);
            }
        }
        i += 1;
    }
    assert(data@ =~= repaired(before, offset as int, stride as int));
    Ok(())
}

/// Every sector end lies inside the record.
proof fn sector_bounds(data: Seq<u8>, offset: int, count: int, stride: int)
    requires
        fixup_layout(data) == Ok::<(int, int, int), Seq<char>>((offset, count, stride)),
    ensures
        forall|k: int| 1 <= k < count ==> 0 <= #[trigger] (k * stride) - 2 && k * stride <= data.len(),
        (count - 1) * stride == data.len(),
        offset + count * 2 <= data.len(),
{
    vstd::arithmetic::div_mod::lemma_fundamental_div_mod(data.len() as int, count - 1);
    assert((count - 1) * stride == data.len());
    assert forall|k: int| 1 <= k < count implies 0 <= #[trigger] (k * stride) - 2 && k * stride <= data.len() by {
        assert(k * stride >= stride) by (nonlinear_arith) requires k >= 1, stride >= 512;
        assert(k * stride <= (count - 1) * stride) by (nonlinear_arith) requires k <= count - 1, stride >= 512;
    }
    assert((count - 1) * stride >= stride) by (nonlinear_arith) requires count >= 2, stride >= 512;
}

/// Finds the update sequence of a record.
fn check_fixup(data: &[u8]) -> (r: Result<(usize, usize, usize), String>)
    ensures
        match r {
            Ok((offset, count, stride)) => fixup_layout(data@) == Ok::<(int, int, int), Seq<char>>(
                (offset as int, count as int, stride as int),
            ),
            Err(e) => fixup_layout(data@) == Err::<(int, int, int), Seq<char>>(e@),
        },
{
    let signature = slice(data, 0, 4)?;
    if signature[0] != 0x46 || signature[1] != 0x49 || signature[2] != 0x4C || signature[3] != 0x45 {
        return Err("Invalid FILE signature".to_string());
    }
    let offset: usize = u16_at(data, 4)? as usize;
    let count: usize = u16_at(data, 6)? as usize;
    if count < 2 || data.len() % (count - 1) != 0 {
        return Err("Invalid update sequence array".to_string());
    }
    let stride: usize = data.len() / (count - 1);
    if stride < 512 || !is_power_of_two(stride as u64) || offset < 8 || offset + count * 2 > stride - 2 {
        return Err("Invalid sector fixup geometry".to_string());
    }
    Ok((offset, count, stride))
}

/// The value of a resident attribute, or why it has none.
pub open spec fn resident_value(attr: Seq<u8>) -> Result<Seq<u8>, Seq<char>> {
    if attr.len() <= 8 {
        Err("NTFS record is truncated"@)
    } else if attr[8] != 0 {
        Err("Expected resident attribute"@)
    } else {
        match number_at(attr, 20, 2) {
            Err(e) => Err(e),
            Ok(offset) => if offset < 24 {
                Err("Invalid resident value offset"@)
            } else {
                match number_at(attr, 16, 4) {
                    Err(e) => Err(e),
                    Ok(len) => sliced(attr, offset, len),
                }
            },
        }
    }
}

/// The value of a resident attribute.
pub fn resident(attr: &[u8]) -> (r: Result<&[u8], String>)
    ensures
        match r {
            Ok(v) => resident_value(attr@) == Ok::<Seq<u8>, Seq<char>>(v@),
            Err(e) => resident_value(attr@) == Err::<Seq<u8>, Seq<char>>(e@),
        },
{
    if attr.len() <= 8 {
        return Err("NTFS record is truncated".to_string());
    }
    if attr[8] != 0 {
        return Err("Expected resident attribute".to_string());
    }
    let offset: usize = u16_at(attr, 20)? as usize;
    if offset < 24 {
        return Err("Invalid resident value offset".to_string());
    }
    let len: u32 = u32_at(attr, 16)?;
    slice(attr, offset, len as usize)
}

/// What is wrong with an attribute's form or name, if anything.
pub open spec fn attribute_fault(attr: Seq<u8>) -> Option<Seq<char>> {
    let form = if attr[8] == 0 {
        match resident_value(attr) {
            Err(e) => Some(e),
            Ok(_) => None,
        }
    } else if attr[8] == 1 {
        match sliced(attr, 0, 64) {
            Err(e) => Some(e),
            Ok(_) => None,
        }
    } else {
        Some("Invalid attribute form"@)
    };
    if form is Some || attr[9] == 0 {
        form
    } else {
        match number_at(attr, 10, 2) {
            Err(e) => Some(e),
            Ok(offset) => match sliced(attr, offset, attr[9] * 2) {
                Err(e) => Some(e),
                Ok(_) => None,
            },
        }
    }
}

/// The attributes that stand in `data` from `offset` on.
pub open spec fn attributes_from(data: Seq<u8>, offset: int) -> Result<Seq<Seq<u8>>, Seq<char>>
    decreases data.len() - offset,
{
    match number_at(data, offset, 4) {
        Err(e) => Err(e),
        Ok(kind) => if kind == u32::MAX {
            Ok(seq![])
        } else {
            match number_at(data, offset + 4, 4) {
                Err(e) => Err(e),
                Ok(len) => if len < 24 || len % 8 != 0 {
                    Err("Invalid attribute length"@)
                } else {
                    match sliced(data, offset, len) {
                        Err(e) => Err(e),
                        Ok(attr) => match attribute_fault(attr) {
                            Some(e) => Err(e),
                            None => match attributes_from(data, offset + len) {
                                Err(e) => Err(e),
                                Ok(rest) => Ok(seq![attr] + rest),
                            },
                        },
                    }
                },
            }
        },
    }
}

/// The attributes of a record, or why they cannot be listed.
pub open spec fn attributes_of(record: Seq<u8>) -> Result<Seq<Seq<u8>>, Seq<char>> {
    match number_at(record, 24, 4) {
        Err(e) => Err(e),
        Ok(used) => if used > record.len() {
            Err("Invalid record length"@)
        } else {
            match number_at(record, 20, 2) {
                Err(e) => Err(e),
                Ok(offset) => if offset < 42 || offset % 8 != 0 {
                    Err("Invalid attribute offset"@)
                } else {
                    attributes_from(record.take(used), offset)
                },
            }
        },
    }
}

/// What a list of byte slices holds.
pub open spec fn slices(list: Seq<&[u8]>) -> Seq<Seq<u8>> {
    Seq::new(list.len(), |i: int| list[i]@)
}

/// Checks the form and the name of an attribute.
fn check_attribute(attr: &[u8]) -> (r: Result<(), String>)
    requires
        attr@.len() >= 24,
    ensures
        match r {
            Ok(_) => attribute_fault(attr@) is None,
            Err(e) => attribute_fault(attr@) == Some(e@),
        },
{
    if attr[8] == 0 {
        resident(attr)?;
    } else if attr[8] == 1 {
        slice(attr, 0, 64)?;
    } else {
        return Err("Invalid attribute form".to_string());
    }
    if attr[9] != 0 {
        let offset: u16 = u16_at(attr, 10)?;
        slice(attr, offset as usize, attr[9] as usize * 2)?;
    }
    Ok(())
}

/// The attributes of a record, each checked for its length, form and name.
pub fn attributes<'a>(record: &'a [u8]) -> (r: Result<Vec<&'a [u8]>, String>)
    ensures
        match r {
            Ok(v) => attributes_of(record@) == Ok::<Seq<Seq<u8>>, Seq<char>>(slices(v@)),
            Err(e) => attributes_of(record@) == Err::<Seq<Seq<u8>>, Seq<char>>(e@),
        },
        r matches Ok(v) ==> forall|i: int| 0 <= i < v@.len() ==> (#[trigger] v@[i])@.len() >= 24,
{
    let used: usize = u32_at(record, 24)? as usize;
    if used > record.len() {
        return Err("Invalid record length".to_string());
    }
    let mut offset: usize = u16_at(record, 20)? as usize;
    if offset < 42 || offset % 8 != 0 {
        return Err("Invalid attribute offset".to_string());
    }
    let data: &'a [u8] = slice(record, 0, used)?;
    assert(data@ =~= record@.take(used as int));
    let mut attrs: Vec<&'a [u8]> = Vec::new();
    let ghost whole = attributes_from(data@, offset as int);
    assert(slices(attrs@) =~= seq![]);
    proof {
        if let Ok(rest) = whole {
            assert(seq![] + rest =~= rest);
        }
    }
    loop
        invariant_except_break
            attributes_of(record@) == whole,
            whole == (match attributes_from(data@, offset as int) {
                Ok(rest) => Ok::<Seq<Seq<u8>>, Seq<char>>(slices(attrs@) + rest),
                Err(e) => Err(e),
            }),
            forall|i: int| 0 <= i < attrs@.len() ==> (#[trigger] attrs@[i])@.len() >= 24,
        ensures
            attributes_of(record@) == Ok::<Seq<Seq<u8>>, Seq<char>>(slices(attrs@)),
            forall|i: int| 0 <= i < attrs@.len() ==> (#[trigger] attrs@[i])@.len() >= 24,
        decreases data@.len() - offset,
    {
        let kind: u32 = u32_at(data, offset)?;
        if kind == u32::MAX {
            assert(slices(attrs@) + Seq::<Seq<u8>>::empty() =~= slices(attrs@));
            break;
        }
        let len: usize = u32_at(data, offset + 4)? as usize;
        if len < 24 || len % 8 != 0 {
            return Err("Invalid attribute length".to_string());
        }
        let attr: &'a [u8] = slice(data, offset, len)?;
        check_attribute(attr)?;
        let ghost listed = slices(attrs@);
        attrs.push(attr);
        offset = offset + len;
        proof {
            assert(slices(attrs@) =~= listed.push(attr@));
            if let Ok(rest) = attributes_from(data@, offset as int) {
                assert(listed + (seq![attr@] + rest) =~= slices(attrs@) + rest);
            }
        }
    }
    Ok(attrs)
}

/// A stretch of a stream: where it starts in the stream, where it lies on the
/// volume (nowhere when sparse), and how long it is, in clusters.
#[derive(Clone, Copy, Debug, PartialEq, Eq, Structural)]
pub struct Run {
    pub vcn: u64,
    pub lcn: Option<u64>,
    pub clusters: u64,
}

/// The two's complement number that little-endian bytes spell.
pub open spec fn signed_le(bytes: Seq<u8>) -> int {
    if bytes.len() > 0 && bytes.last() >= 128 {
        le(bytes) - pow256(bytes.len() as int)
    } else {
        le(bytes)
    }
}

/// The runs that mapping pairs describe, from cluster `vcn` of the stream and
/// volume position `lcn` on, when they fill the stream up to `end`.
pub open spec fn decode_pairs(pairs: Seq<u8>, vcn: int, lcn: int, end: int) -> Result<
    Seq<Run>,
    Seq<char>,
>
    decreases pairs.len(),
{
    if pairs.len() == 0 {
        Err("Unterminated runlist"@)
    } else if pairs[0] == 0 {
        if vcn != end {
            Err("Incomplete mapping pairs"@)
        } else {
            Ok(seq![])
        }
    } else {
        let n = pairs[0] as int % 16;
        let d = pairs[0] as int / 16;
        if n == 0 || n > 8 || d > 8 {
            Err("Invalid mapping pair width"@)
        } else {
            match sliced(pairs, 1, n + d) {
                Err(e) => Err(e),
                Ok(bytes) => {
                    let clusters = le(bytes.take(n));
                    let position = lcn + signed_le(bytes.skip(n));
                    if clusters == 0 {
                        Err("Zero length mapping pair"@)
                    } else if d > 0 && !(0 <= position <= u64::MAX) {
                        Err("Invalid LCN"@)
                    } else if vcn + clusters > u64::MAX {
                        Err("VCN overflow"@)
                    } else if vcn + clusters > end {
                        Err("Mapping pairs exceed attribute range"@)
                    } else {
                        match decode_pairs(
                            pairs.skip(1 + n + d),
                            vcn + clusters,
                            if d == 0 {
                                lcn
                            } else {
                                position
                            },
                            end,
                        ) {
                            Err(e) => Err(e),
                            Ok(rest) => Ok(
                                seq![
                                    Run {
                                        vcn: vcn as u64,
                                        lcn: if d == 0 {
                                            None
                                        } else {
                                            Some(position as u64)
                                        },
                                        clusters: clusters as u64,
                                    },
                                ] + rest,
                            ),
                        }
                    }
                },
            }
        }
    }
}

/// The runs of a nonresident attribute, or why they cannot be decoded.
pub open spec fn runs_of(attr: Seq<u8>) -> Result<Seq<Run>, Seq<char>> {
    if attr.len() <= 8 {
        Err("NTFS record is truncated"@)
    } else if attr[8] != 1 {
        Err("Expected nonresident attribute"@)
    } else {
        match number_at(attr, 16, 8) {
            Err(e) => Err(e),
            Ok(vcn) => match number_at(attr, 24, 8) {
                Err(e) => Err(e),
                Ok(last) => if last == u64::MAX {
                    Err("VCN overflow"@)
                } else {
                    match number_at(attr, 32, 2) {
                        Err(e) => Err(e),
                        Ok(offset) => if offset < 64 {
                            Err("Invalid runlist offset"@)
                        } else if offset > attr.len() {
                            Err("Invalid runlist"@)
                        } else {
                            decode_pairs(attr.skip(offset), vcn, 0, last + 1)
                        },
                    }
                },
            },
        }
    }
}

/// Reads up to eight bytes as a two's complement number.
fn read_signed_le(bytes: &[u8]) -> (r: i128)
    requires
        0 < bytes@.len() <= 8,
    ensures
        r == signed_le(bytes@),
        -0x8000_0000_0000_0000 <= r < 0x8000_0000_0000_0000,
{
    proof {
        le_bound(bytes@);
        pow256_values();
        signed_le_bound(bytes@);
    }
    let value: i128 = read_le(bytes) as i128;
    if bytes[bytes.len() - 1] >= 128 {
        let mut size: i128 = 1;
        let mut i: usize = 0;
        while i < bytes.len()
            invariant
                i <= bytes@.len() <= 8,
                size == pow256(i as int),
            decreases bytes@.len() - i,
        {
            i += 1;
            proof {
                pow256_values();
            }
            size = 256 * size;
        }
        value - size
    } else {
        value
    }
}

/// The size of a number follows from its last byte.
proof fn le_last_byte(bytes: Seq<u8>)
    requires
        bytes.len() > 0,
    ensures
        bytes.last() * pow256(bytes.len() - 1) <= le(bytes) < (bytes.last() + 1) * pow256(
            bytes.len() - 1,
        ),
    decreases bytes.len(),
{
    if bytes.len() == 1 {
        assert(bytes.drop_first() =~= seq![]);
        assert(le(bytes) == bytes[0]) by {
            assert(le(bytes.drop_first()) == 0);
        }
        assert(pow256(0) == 1);
        let b = bytes.last() as int;
        assert(b * 1 <= b < (b + 1) * 1);
    } else {
        let rest = bytes.drop_first();
        le_last_byte(rest);
        let (b, p) = (bytes.last() as int, pow256(bytes.len() - 2));
        assert(rest.last() == b);
        assert(pow256(bytes.len() - 1) == 256 * p);
        assert(b * p <= le(rest) <= (b + 1) * p - 1);
        assert(256 * (b * p) == b * (256 * p)) by (nonlinear_arith);
        assert(256 * ((b + 1) * p) == (b + 1) * (256 * p)) by (nonlinear_arith);
    }
}

proof fn signed_le_bound(bytes: Seq<u8>)
    requires
        0 < bytes.len() <= 8,
    ensures
        -0x8000_0000_0000_0000 <= signed_le(bytes) < 0x8000_0000_0000_0000,
{
    le_last_byte(bytes);
    pow256_values();
    let p = pow256(bytes.len() - 1);
    let b = bytes.last() as int;
    assert(pow256(bytes.len() as int) == 256 * p);
    assert(1 <= p <= 0x100_0000_0000_0000);
    if b >= 128 {
        assert(b * p >= 128 * p) by (nonlinear_arith)
            requires
                b >= 128,
                p >= 1,
        ;
        assert((b + 1) * p <= 256 * p) by (nonlinear_arith)
            requires
                b <= 255,
                p >= 1,
        ;
    } else {
        assert(b * p >= 0) by (nonlinear_arith)
            requires
                b >= 0,
                p >= 1,
        ;
        assert((b + 1) * p <= 128 * p) by (nonlinear_arith)
            requires
                b <= 127,
                p >= 1,
        ;
    }
}

/// Decodes the runs of a nonresident attribute.
pub fn runs(attr: &[u8]) -> (r: Result<Vec<Run>, String>)
    ensures
        match r {
            Ok(v) => runs_of(attr@) == Ok::<Seq<Run>, Seq<char>>(v@),
            Err(e) => runs_of(attr@) == Err::<Seq<Run>, Seq<char>>(e@),
        },
{
    if attr.len() <= 8 {
        return Err("NTFS record is truncated".to_string());
    }
    if attr[8] != 1 {
        return Err("Expected nonresident attribute".to_string());
    }
    let mut vcn: u64 = u64_at(attr, 16)?;
    let last: u64 = u64_at(attr, 24)?;
    let end: u64 = match last.checked_add(1) {
        Some(end) => end,
        None => {
            return Err("VCN overflow".to_string());
        },
    };
    let offset: usize = u16_at(attr, 32)? as usize;
    if offset < 64 {
        return Err("Invalid runlist offset".to_string());
    }
    if offset > attr.len() {
        return Err("Invalid runlist".to_string());
    }
    let mut pairs: &[u8] = &attr[offset..attr.len()];
    assert(pairs@ =~= attr@.skip(offset as int));
    let mut lcn: i128 = 0;
    let mut result: Vec<Run> = Vec::new();
    let ghost whole = decode_pairs(pairs@, vcn as int, 0, end as int);
    proof {
        if let Ok(rest) = whole {
            assert(result@ + rest =~= rest);
        }
    }
    loop
        invariant_except_break
            runs_of(attr@) == whole,
            0 <= lcn <= u64::MAX,
            whole == (match decode_pairs(pairs@, vcn as int, lcn as int, end as int) {
                Ok(rest) => Ok::<Seq<Run>, Seq<char>>(result@ + rest),
                Err(e) => Err(e),
            }),
        ensures
            runs_of(attr@) == Ok::<Seq<Run>, Seq<char>>(result@),
        decreases pairs@.len(),
    {
        if pairs.len() == 0 {
            return Err("Unterminated runlist".to_string());
        }
        let head: u8 = pairs[0];
        if head == 0 {
            if vcn != end {
                return Err("Incomplete mapping pairs".to_string());
            }
            assert(result@ + Seq::<Run>::empty() =~= result@);
            break;
        }
        let n: usize = (head % 16) as usize;
        let d: usize = (head / 16) as usize;
        if n == 0 || n > 8 || d > 8 {
            return Err("Invalid mapping pair width".to_string());
        }
        let bytes = slice(pairs, 1, n + d)?;
        let low = &bytes[0..n];
        assert(low@ =~= bytes@.take(n as int));
        let clusters: u64 = read_le(low);
        if clusters == 0 {
            return Err("Zero length mapping pair".to_string());
        }
        let mut physical: Option<u64> = None;
        if d > 0 {
            let high = &bytes[n..bytes.len()];
            assert(high@ =~= bytes@.skip(n as int));
            lcn = lcn + read_signed_le(high);
            if lcn < 0 || lcn > u64::MAX as i128 {
                return Err("Invalid LCN".to_string());
            }
            physical = Some(lcn as u64);
        }
        let run = Run { vcn, lcn: physical, clusters };
        let ghost before = result@;
        result.push(run);
        match vcn.checked_add(clusters) {
            None => {
                return Err("VCN overflow".to_string());
            },
            Some(next) => {
                if next > end {
                    return Err("Mapping pairs exceed attribute range".to_string());
                }
                vcn = next;
            },
        }
        let ghost old_pairs = pairs@;
        let rest = &pairs[1 + n + d..pairs.len()];
        assert(rest@ =~= old_pairs.skip(1 + n + d));
        pairs = rest;
        proof {
            if let Ok(more) = decode_pairs(pairs@, vcn as int, lcn as int, end as int) {
                assert(before + (seq![run] + more) =~= result@ + more);
            }
        }
    }
    Ok(result)
}

/// The record references of an attribute list, in the order in which they
/// stand from `offset` on.
pub open spec fn listed_references(data: Seq<u8>, offset: int) -> Result<Seq<u64>, Seq<char>>
    decreases data.len() - offset,
{
    if offset >= data.len() || zero_from(data, offset) {
        Ok(seq![])
    } else {
        match number_at(data, offset + 4, 2) {
            Err(e) => Err(e),
            Ok(len) => if len < 26 {
                Err("Invalid attribute list entry"@)
            } else {
                match sliced(data, offset, len) {
                    Err(e) => Err(e),
                    Ok(entry) => match listed_references(data, offset + len) {
                        Err(e) => Err(e),
                        Ok(rest) => Ok(seq![le(entry.subrange(16, 24)) as u64] + rest),
                    },
                }
            },
        }
    }
}

/// The record references of an attribute list, in increasing order, each once.
pub open spec fn references_of(data: Seq<u8>) -> Result<Seq<u64>, Seq<char>> {
    match listed_references(data, 0) {
        Err(e) => Err(e),
        Ok(refs) => Ok(in_order(refs)),
    }
}

/// The record references of an attribute list, in increasing order, each once.
pub fn list_references(data: &[u8]) -> (r: Result<Vec<u64>, String>)
    ensures
        match r {
            Ok(v) => references_of(data@) == Ok::<Seq<u64>, Seq<char>>(v@),
            Err(e) => references_of(data@) == Err::<Seq<u64>, Seq<char>>(e@),
        },
{
    let mut offset: usize = 0;
    let mut refs: Vec<u64> = Vec::new();
    let ghost whole = listed_references(data@, 0);
    proof {
        if let Ok(rest) = whole {
            assert(refs@ + rest =~= rest);
        }
    }
    while offset < data.len()
        invariant_except_break
            whole == listed_references(data@, 0),
            whole == (match listed_references(data@, offset as int) {
                Ok(rest) => Ok::<Seq<u64>, Seq<char>>(refs@ + rest),
                Err(e) => Err(e),
            }),
        ensures
            whole == listed_references(data@, 0),
            whole == Ok::<Seq<u64>, Seq<char>>(refs@),
        decreases data@.len() - offset,
    {
        if is_zero_from(data, offset) {
            assert(refs@ + Seq::<u64>::empty() =~= refs@);
            break;
        }
        let len: usize = match offset.checked_add(4) {
            None => {
                return Err("NTFS offset overflow".to_string());
            },
            Some(at) => u16_at(data, at)? as usize,
        };
        if len < 26 {
            return Err("Invalid attribute list entry".to_string());
        }
        let entry = slice(data, offset, len)?;
        let reference: u64 = u64_at(entry, 16)?;
        let ghost before = refs@;
        refs.push(reference);
        offset = offset + len;
        proof {
            if let Ok(rest) = listed_references(data@, offset as int) {
                assert(before + (seq![reference] + rest) =~= refs@ + rest);
            }
            if offset >= data@.len() {
                assert(refs@ + Seq::<u64>::empty() =~= refs@);
            }
        }
    }
    Ok(sort_distinct(&refs))
}

/// The Unix epoch in NTFS ticks: 100 nanosecond steps from 1601-01-01.
pub const EPOCH_TICKS: u64 = 116_444_736_000_000_000;

/// The instant that an NTFS tick count names; zero names none.
pub open spec fn tick_time(ticks: u64) -> Option<Timestamp> {
    if ticks == 0 {
        None
    } else {
        Some(Timestamp::at((ticks - EPOCH_TICKS) * 100))
    }
}

/// The instant that an NTFS tick count names; zero names none.
pub fn file_time(ticks: u64) -> (r: Option<Timestamp>)
    ensures
        r == tick_time(ticks),
{
    if ticks == 0 {
        return None;
    }
    Timestamp::from_nanos((ticks as i128 - EPOCH_TICKS as i128) * 100)
}

/// The root of the drive that a path names, where it names nothing else: a
/// letter, a colon and a separator.
pub open spec fn drive_root(path: Seq<char>) -> Option<Seq<char>> {
    let code = path[0] as int;
    if path.len() == 3 && (97 <= code <= 122 || 65 <= code <= 90) && path[1] == ':' && (path[2]
        == '\\' || path[2] == '/') {
        Some(
            seq![
                if 97 <= code <= 122 {
                    (code - 32) as char
                } else {
                    path[0]
                },
                ':',
                '\\',
            ],
        )
    } else {
        None
    }
}

/// The root of the drive that a path names. Anything but a drive's root is
/// refused, so that no other volume is read.
pub fn volume_root(path: &str) -> (r: Option<String>)
    ensures
        match r {
            Some(root) => drive_root(path@) == Some(root@),
            None => drive_root(path@) is None,
        },
{
    let chars = chars_of(path);
    if chars.len() != 3 || chars[1] != ':' || (chars[2] != '\\' && chars[2] != '/') {
        return None;
    }
    let code: u32 = chars[0] as u32;
    let letter: char = chars[0];
    proof {
        char_is_scalar(letter);
    }
    let upper: char = if code >= 97 && code <= 122 {
        let low: u8 = (code - 32) as u8;
        low as char
    } else if code >= 65 && code <= 90 {
        letter
    } else {
        return None;
    };
    let mut root: String = String::new();
    root.push(upper);
    root.push(':');
    root.push('\\');
    assert(root@ =~= drive_root(path@)->0);
    Some(root)
}

} // verus!
