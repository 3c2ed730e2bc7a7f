//! What the sectors and runs of a volume say, byte by byte.
use vstd::prelude::*;
use vstd::arithmetic::power2::pow2;
use crate::bytes::{le, number_at, pow256, power_of_two, sliced};
use crate::mft::{attributes_of, decode_pairs, fixup_layout, fixup_result, references_of, repaired, resident_value, runs_of, sector_ends_with, sectors_are_raw, sectors_are_restored, signed_le, Run};
use crate::mft::index::IndexView;
use crate::mft::place_laws::{slot_number, slots_are_the_lower_bits};
use crate::mft::record::record_of;
use crate::mft::record_laws::{attributes_are_those_that_stand_there, eight, four, is_well_formed, listed, numbers_are_spelt_by_their_bytes, standing_attributes_are_long, two};
use crate::mft::volume::{answered_record, bytes_lie_in_their_run, extension_fault, geometry_of, other_records, piece_at, extents_of, ingested, mapping_of, mappings_are_contiguous, next_chunk, next_list, run_end, run_holds, run_of, sectors_bound, slot_at, sorted_runs, starts_like_a_record, with_extent, with_extents, with_run, Extents, Geometry, ListSourceView, Piece};

verus! {

/// What the `k`th byte of a number counts for.
pub open spec fn weight(k: int) -> int {
    if k == 0 {
        1
    } else if k == 1 {
        0x100
    } else if k == 2 {
        0x1_0000
    } else if k == 3 {
        0x100_0000
    } else if k == 4 {
        0x1_0000_0000
    } else if k == 5 {
        0x100_0000_0000
    } else if k == 6 {
        0x1_0000_0000_0000
    } else if k == 7 {
        0x100_0000_0000_0000
    } else {
        0x1_0000_0000_0000_0000
    }
}

/// The number in `n` bytes, the low one first.
pub open spec fn spelt(b: Seq<u8>, at: int, n: int) -> int
    decreases n,
{
    if n <= 0 {
        0
    } else {
        spelt(b, at, n - 1) + b[at + n - 1] * weight(n - 1)
    }
}

/// The number in `n` bytes whose highest bit stands for its negative value.
pub open spec fn spelt_signed(b: Seq<u8>, at: int, n: int) -> int {
    if n > 0 && b[at + n - 1] >= 0x80 {
        spelt(b, at, n) - weight(n)
    } else {
        spelt(b, at, n)
    }
}

proof fn weights_are_powers(k: int)
    requires
        0 <= k <= 8,
    ensures
        weight(k) == pow256(k),
{
    reveal_with_fuel(pow256, 10);
}

proof fn the_last_byte_counts_most(bytes: Seq<u8>)
    requires
        0 < bytes.len(),
    ensures
        le(bytes) == le(bytes.drop_last()) + bytes.last() * pow256(bytes.len() - 1),
    decreases bytes.len(),
{
    if bytes.len() == 1 {
        assert(le(bytes.drop_first()) == 0);
        assert(le(bytes.drop_last()) == 0);
        assert(pow256(0) == 1);
        assert(bytes.last() * 1 == bytes.last());
    } else {
        let rest = bytes.drop_first();
        the_last_byte_counts_most(rest);
        assert(rest.drop_last() =~= bytes.drop_last().drop_first());
        assert(bytes.drop_last()[0] == bytes[0]);
        let p = pow256(bytes.len() - 2);
        assert(pow256(bytes.len() - 1) == 256 * p);
        let b = bytes.last() as int;
        assert(256 * (b * p) == b * (256 * p)) by (nonlinear_arith);
    }
}

proof fn spelt_by_its_bytes(b: Seq<u8>, at: int, n: int)
    requires
        0 <= at,
        0 <= n <= 8,
        at + n <= b.len(),
    ensures
        le(b.subrange(at, at + n)) == spelt(b, at, n),
        signed_le(b.subrange(at, at + n)) == spelt_signed(b, at, n),
    decreases n,
{
    let s = b.subrange(at, at + n);
    weights_are_powers(n);
    if n > 0 {
        spelt_by_its_bytes(b, at, n - 1);
        weights_are_powers(n - 1);
        the_last_byte_counts_most(s);
        assert(s.drop_last() =~= b.subrange(at, at + n - 1));
        assert(s.last() == b[at + n - 1]);
    }
}

/// Whether `runs` are those that the mapping pairs from `at` on describe: each pair
/// starts with the widths of its two numbers, the length of the run and how far its
/// place lies from that of the run before; a run without a place is sparse. A zero
/// ends the list where the runs have come to cluster `end`.
pub open spec fn runs_stand_in(
    b: Seq<u8>,
    at: int,
    vcn: int,
    lcn: int,
    end: int,
    runs: Seq<Run>,
) -> bool
    decreases runs.len(),
{
    &&& at < b.len()
    &&& if runs.len() == 0 {
        b[at] == 0 && vcn == end
    } else {
        let n = b[at] as int % 16;
        let d = b[at] as int / 16;
        let run = runs[0];
        &&& 1 <= n <= 8
        &&& d <= 8
        &&& at + 1 + n + d <= b.len()
        &&& run.vcn == vcn
        &&& run.clusters == spelt(b, at + 1, n)
        &&& 0 < run.clusters
        &&& vcn + run.clusters <= end
        &&& d == 0 ==> run.lcn is None
        &&& d > 0 ==> run.lcn is Some && run.lcn->0 == lcn + spelt_signed(b, at + 1 + n, d)
        &&& runs_stand_in(
            b,
            at + 1 + n + d,
            vcn + run.clusters,
            if d == 0 {
                lcn
            } else {
                run.lcn->0 as int
            },
            end,
            runs.drop_first(),
        )
    }
}

proof fn a_pair_is_read(b: Seq<u8>, at: int)
    requires
        0 <= at < b.len(),
        b[at] != 0,
        1 <= b[at] as int % 16 <= 8,
        b[at] as int / 16 <= 8,
        b.len() <= usize::MAX,
    ensures
        ({
            let n = b[at] as int % 16;
            let d = b[at] as int / 16;
            let pairs = b.skip(at);
            &&& pairs.len() > 0
            &&& pairs[0] == b[at]
            &&& sliced(pairs, 1, n + d) is Ok <==> at + 1 + n + d <= b.len()
            &&& at + 1 + n + d <= b.len() ==> {
                let bytes = sliced(pairs, 1, n + d)->Ok_0;
                &&& le(bytes.take(n)) == spelt(b, at + 1, n)
                &&& signed_le(bytes.skip(n)) == spelt_signed(b, at + 1 + n, d)
                &&& pairs.skip(1 + n + d) == b.skip(at + 1 + n + d)
            }
        }),
{
    let n = b[at] as int % 16;
    let d = b[at] as int / 16;
    let pairs = b.skip(at);
    if at + 1 + n + d <= b.len() {
        let bytes = sliced(pairs, 1, n + d)->Ok_0;
        spelt_by_its_bytes(b, at + 1, n);
        spelt_by_its_bytes(b, at + 1 + n, d);
        assert(bytes.take(n) =~= b.subrange(at + 1, at + 1 + n));
        assert(bytes.skip(n) =~= b.subrange(at + 1 + n, at + 1 + n + d));
        assert(pairs.skip(1 + n + d) =~= b.skip(at + 1 + n + d));
    }
}

proof fn spelt_bound(b: Seq<u8>, at: int, n: int)
    requires
        0 <= at,
        0 <= n <= 8,
        at + n <= b.len(),
    ensures
        0 <= spelt(b, at, n) <= u64::MAX,
{
    spelt_by_its_bytes(b, at, n);
    crate::bytes::le_bound(b.subrange(at, at + n));
    weights_are_powers(n);
}

proof fn decoded_runs_stand_there(b: Seq<u8>, at: int, vcn: int, lcn: int, end: int)
    requires
        0 <= at <= b.len() <= usize::MAX,
        0 <= vcn <= u64::MAX,
        0 <= lcn <= u64::MAX,
        end <= u64::MAX,
    ensures
        decode_pairs(b.skip(at), vcn, lcn, end) matches Ok(runs) ==> runs_stand_in(
            b,
            at,
            vcn,
            lcn,
            end,
            runs,
        ),
    decreases b.len() - at,
{
    let pairs = b.skip(at);
    if decode_pairs(pairs, vcn, lcn, end) is Ok && pairs.len() > 0 && pairs[0] != 0 {
        let n = b[at] as int % 16;
        let d = b[at] as int / 16;
        a_pair_is_read(b, at);
        spelt_bound(b, at + 1, n);
        let clusters = spelt(b, at + 1, n);
        let next = if d == 0 {
            lcn
        } else {
            lcn + spelt_signed(b, at + 1 + n, d)
        };
        decoded_runs_stand_there(b, at + 1 + n + d, vcn + clusters, next, end);
        let runs = decode_pairs(pairs, vcn, lcn, end)->Ok_0;
        let rest = decode_pairs(b.skip(at + 1 + n + d), vcn + clusters, next, end)->Ok_0;
        assert(runs.drop_first() =~= rest);
    }
}

proof fn standing_runs_are_decoded(
    b: Seq<u8>,
    at: int,
    vcn: int,
    lcn: int,
    end: int,
    runs: Seq<Run>,
)
    requires
        0 <= at <= b.len() <= usize::MAX,
        0 <= vcn <= u64::MAX,
        0 <= lcn <= u64::MAX,
        end <= u64::MAX,
        runs_stand_in(b, at, vcn, lcn, end, runs),
    ensures
        decode_pairs(b.skip(at), vcn, lcn, end) == Ok::<Seq<Run>, Seq<char>>(runs),
    decreases runs.len(),
{
    let pairs = b.skip(at);
    if runs.len() == 0 {
        assert(runs =~= seq![]);
    } else {
        let n = b[at] as int % 16;
        let d = b[at] as int / 16;
        a_pair_is_read(b, at);
        let next = if d == 0 {
            lcn
        } else {
            runs[0].lcn->0 as int
        };
        standing_runs_are_decoded(
            b,
            at + 1 + n + d,
            vcn + runs[0].clusters,
            next,
            end,
            runs.drop_first(),
        );
        assert(seq![runs[0]] + runs.drop_first() =~= runs);
    }
}

/// The runs of an attribute are those that its mapping pairs describe, from the
/// cluster in the bytes 16 to 23 to the one in the bytes 24 to 31; such runs are
/// always decoded, and nothing else is.
pub proof fn runs_are_those_that_stand_there(attr: Seq<u8>, runs: Seq<Run>)
    requires
        34 <= attr.len() <= usize::MAX,
    ensures
        runs_of(attr) == Ok::<Seq<Run>, Seq<char>>(runs) <==> (attr[8] == 1 && eight(attr, 24)
            != 0xFFFF_FFFF_FFFF_FFFF && 64 <= two(attr, 32) <= attr.len() && runs_stand_in(
            attr,
            two(attr, 32),
            eight(attr, 16),
            0,
            eight(attr, 24) + 1,
            runs,
        )),
{
    numbers_are_spelt_by_their_bytes(attr, 16);
    numbers_are_spelt_by_their_bytes(attr, 24);
    numbers_are_spelt_by_their_bytes(attr, 32);
    if attr[8] == 1 && eight(attr, 24) != 0xFFFF_FFFF_FFFF_FFFF && 64 <= two(attr, 32)
        <= attr.len() {
        let at = two(attr, 32);
        decoded_runs_stand_there(attr, at, eight(attr, 16), 0, eight(attr, 24) + 1);
        if runs_stand_in(attr, at, eight(attr, 16), 0, eight(attr, 24) + 1, runs) {
            standing_runs_are_decoded(
                attr,
                at,
                eight(attr, 16),
                0,
                eight(attr, 24) + 1,
                runs,
            );
        }
    }
}

/// Whether a number is a power of two.
pub open spec fn is_power(n: int) -> bool {
    exists|e: nat| n == #[trigger] pow2(e)
}

/// The powers of two are one, and the doubles of powers of two.
pub proof fn powers_of_two(n: int)
    ensures
        power_of_two(n) <==> is_power(n),
    decreases n,
{
    vstd::arithmetic::power2::lemma_pow2(0);
    vstd::arithmetic::power2::lemma2_to64();
    if power_of_two(n) {
        if n == 1 {
            assert(n == pow2(0));
        } else {
            powers_of_two(n / 2);
            let e = choose|e: nat| n / 2 == #[trigger] pow2(e);
            vstd::arithmetic::power2::lemma_pow2_unfold(e + 1);
            assert(n == pow2(e + 1));
        }
    }
    if is_power(n) {
        let e = choose|e: nat| n == #[trigger] pow2(e);
        powers_are_recognised(e);
    }
}

proof fn powers_are_recognised(e: nat)
    ensures
        power_of_two(pow2(e) as int),
    decreases e,
{
    vstd::arithmetic::power2::lemma2_to64();
    if e > 0 {
        powers_are_recognised((e - 1) as nat);
        vstd::arithmetic::power2::lemma_pow2_unfold(e);
        vstd::arithmetic::power2::lemma_pow2_pos((e - 1) as nat);
        let half = pow2((e - 1) as nat) as int;
        assert(pow2(e) == 2 * half);
    } else {
        assert(pow2(0) == 1);
    }
}

/// A volume of version 3.0 or 3.1 has the sizes that its answer says: of a sector at
/// byte 40, of a cluster at 44, of a record at 48 and of the record file at 56, and
/// as many sectors as it says at 8. Nothing else is accepted, nor sizes that are no
/// powers of two, out of bounds, or such that the record file does not end with a
/// record.
pub proof fn geometries_are_those_of_the_answer(data: Seq<u8>, g: Geometry)
    requires
        104 <= data.len() <= usize::MAX,
    ensures
        geometry_of(data) == Ok::<Geometry, Seq<char>>(g) <==> ({
            &&& two(data, 100) == 3
            &&& two(data, 102) <= 1
            &&& g.sector == four(data, 40)
            &&& g.cluster == four(data, 44)
            &&& g.record == four(data, 48)
            &&& g.length == eight(data, 56)
            &&& g.volume_bytes == eight(data, 8) * four(data, 40)
            &&& 512 <= g.sector <= 65_536
            &&& is_power(g.sector as int)
            &&& g.sector <= g.cluster <= 2_097_152
            &&& is_power(g.cluster as int)
            &&& 512 <= g.record <= 65_536
            &&& is_power(g.record as int)
            &&& 0 < g.length
            &&& g.length as int % g.record as int == 0
        }),
{
    numbers_are_spelt_by_their_bytes(data, 100);
    numbers_are_spelt_by_their_bytes(data, 102);
    numbers_are_spelt_by_their_bytes(data, 40);
    numbers_are_spelt_by_their_bytes(data, 44);
    numbers_are_spelt_by_their_bytes(data, 48);
    numbers_are_spelt_by_their_bytes(data, 56);
    numbers_are_spelt_by_their_bytes(data, 8);
    powers_of_two(four(data, 40));
    powers_of_two(four(data, 44));
    powers_of_two(four(data, 48));
    let product = eight(data, 8) * four(data, 40);
    assert(product >= 0) by (nonlinear_arith)
        requires
            product == eight(data, 8) * four(data, 40),
            eight(data, 8) >= 0,
            four(data, 40) >= 0,
    ;
}

/// The extension records that an attribute list names are all its records but the
/// first of the volume, in the same order.
pub proof fn extensions_are_the_other_records(references: Seq<u64>, n: int)
    requires
        0 <= n <= references.len(),
        forall|i: int, j: int| 0 <= i < j < n ==> references[i] < references[j],
    ensures
        forall|x: u64| #[trigger]
            other_records(references, n).contains(x) <==> slot_number(x) != 0 && exists|i: int|
                0 <= i < n && references[i] == x,
        forall|i: int, j: int|
            0 <= i < j < other_records(references, n).len() ==> other_records(references, n)[i]
                < other_records(references, n)[j],
    decreases n,
{
    if n > 0 {
        extensions_are_the_other_records(references, n - 1);
        let rest = other_records(references, n - 1);
        let all = other_records(references, n);
        let last = references[n - 1];
        slots_are_the_lower_bits(last);
        assert forall|x: u64| #[trigger] all.contains(x) <==> slot_number(x) != 0 && exists|i: int|
            0 <= i < n && references[i] == x by {
            if all.contains(x) {
                let k = choose|k: int| 0 <= k < all.len() && all[k] == x;
                if k < rest.len() {
                    assert(rest.contains(x));
                }
            }
            if slot_number(x) != 0 && exists|i: int| 0 <= i < n && references[i] == x {
                let i = choose|i: int| 0 <= i < n && references[i] == x;
                if i < n - 1 {
                    assert(rest.contains(x));
                    let k = choose|k: int| 0 <= k < rest.len() && rest[k] == x;
                    assert(all[k] == x);
                } else {
                    assert(all[rest.len() as int] == x);
                }
            }
        }
        assert forall|i: int, j: int| 0 <= i < j < all.len() implies all[i] < all[j] by {
            if j == rest.len() {
                assert(rest.contains(rest[i]));
            }
        }
    }
}

proof fn upper_bits(reference: u64, sequence: u64)
    requires
        sequence < 0x1_0000,
    ensures
        reference >> 48 == reference / 0x1_0000_0000_0000,
        sequence << 48 == sequence * 0x1_0000_0000_0000,
{
    assert(reference >> 48 == reference / 0x1_0000_0000_0000) by (bit_vector);
    assert(sequence << 48 == sequence * 0x1_0000_0000_0000) by (bit_vector)
        requires
            sequence < 0x1_0000,
    ;
}

/// An extension record belongs to the first record exactly where its base is made
/// of slot zero and the first record's own sequence number.
pub proof fn extensions_name_the_first_record(base: Seq<u8>, record: Seq<u8>)
    requires
        18 <= base.len() <= usize::MAX,
        40 <= record.len() <= usize::MAX,
    ensures
        extension_fault(base, record) is None <==> eight(record, 32) == two(base, 16)
            * 0x1_0000_0000_0000,
{
    numbers_are_spelt_by_their_bytes(base, 16);
    numbers_are_spelt_by_their_bytes(record, 32);
    upper_bits(0, two(base, 16) as u64);
}

/// The answer of a volume is taken exactly where it is the record that was asked
/// for: it has its slot and its size, its sectors belong together, and where a
/// sequence number was asked for, the record has that one.
pub proof fn answers_are_the_records_that_were_asked_for(
    out: Seq<u8>,
    reference: u64,
    size: int,
    data: Seq<u8>,
)
    requires
        18 <= size,
        12 + size <= out.len() <= usize::MAX,
    ensures
        answered_record(out, reference, size) == Ok::<Seq<u8>, Seq<char>>(data) <==> ({
            let raw = out.subrange(12, 12 + size);
            &&& eight(out, 0) % 0x1_0000_0000_0000 == slot_number(reference)
            &&& four(out, 8) == size
            &&& fixup_result(raw, true).0 is Ok
            &&& data == fixup_result(raw, true).1
            &&& reference / 0x1_0000_0000_0000 == 0 || two(data, 16) == reference
                / 0x1_0000_0000_0000
        }),
{
    numbers_are_spelt_by_their_bytes(out, 0);
    numbers_are_spelt_by_their_bytes(out, 8);
    slots_are_the_lower_bits(eight(out, 0) as u64);
    slots_are_the_lower_bits(reference);
    upper_bits(reference, 0);
    let raw = out.subrange(12, 12 + size);
    let done = fixup_result(raw, true).1;
    assert(done.len() == raw.len());
    numbers_are_spelt_by_their_bytes(done, 16);
}

/// How many bytes a sector of a record has: the record has as many sectors as the
/// bytes at 6 say, less one.
pub open spec fn stride(data: Seq<u8>) -> int {
    data.len() as int / (two(data, 6) - 1)
}

/// Whether the update sequence of a record fits it.
pub open spec fn has_update_sequence(data: Seq<u8>) -> bool {
    &&& data.take(4) == seq![0x46u8, 0x49, 0x4c, 0x45]
    &&& 2 <= two(data, 6)
    &&& data.len() as int % (two(data, 6) - 1) == 0
    &&& 512 <= stride(data)
    &&& is_power(stride(data))
    &&& 8 <= two(data, 4)
    &&& two(data, 4) + 2 * two(data, 6) <= stride(data) - 2
}

/// Whether the two last bytes of sector `i`, counted from one, are those at `at`.
pub open spec fn ends_in(data: Seq<u8>, i: int, at: int) -> bool {
    data[i * stride(data) - 2] == data[at] && data[i * stride(data) - 1] == data[at + 1]
}

/// Whether every sector ends in the number that marks the last write of the record.
pub open spec fn is_marked(data: Seq<u8>) -> bool {
    forall|i: int| 1 <= i < two(data, 6) ==> #[trigger] ends_in(data, i, two(data, 4))
}

/// Whether every sector ends in its own bytes, as the update sequence keeps them.
pub open spec fn is_unmarked(data: Seq<u8>) -> bool {
    forall|i: int| 1 <= i < two(data, 6) ==> #[trigger] ends_in(data, i, two(data, 4) + 2 * i)
}

proof fn layouts_are_update_sequences(data: Seq<u8>)
    requires
        8 <= data.len() <= usize::MAX,
    ensures
        fixup_layout(data) is Ok <==> has_update_sequence(data),
        fixup_layout(data) is Ok ==> fixup_layout(data)->Ok_0 == (
            two(data, 4),
            two(data, 6),
            stride(data),
        ),
{
    numbers_are_spelt_by_their_bytes(data, 4);
    numbers_are_spelt_by_their_bytes(data, 6);
    powers_of_two(stride(data));
    assert(sliced(data, 0, 4) == Ok::<Seq<u8>, Seq<char>>(data.take(4)));
    assert(crate::mft::spells_file(data.take(4)) <==> data.take(4) =~= seq![
        0x46u8,
        0x49,
        0x4c,
        0x45,
    ]);
}

/// A record is repaired exactly where its update sequence fits and every sector ends
/// in the number of the last write, or, where that is allowed, in its own bytes
/// already. Then every sector of the first kind gets its own two last bytes back from
/// the update sequence; no other byte changes, and a record that is refused stays as
/// it is.
pub proof fn sectors_get_their_bytes_back(data: Seq<u8>, allow_restored: bool)
    requires
        8 <= data.len() <= usize::MAX,
    ensures
        ({
            let (answer, done) = fixup_result(data, allow_restored);
            let at = two(data, 4);
            let count = two(data, 6);
            &&& answer is Ok <==> has_update_sequence(data) && (is_marked(data) || (allow_restored
                && is_unmarked(data)))
            &&& answer is Err || !is_marked(data) ==> done == data
            &&& answer is Ok && is_marked(data) ==> {
                &&& done.len() == data.len()
                &&& data.len() == (count - 1) * stride(data)
                &&& forall|i: int|
                    1 <= i < count ==> (#[trigger] done[i * stride(data) - 2]) == data[at + 2 * i]
                &&& forall|i: int|
                    1 <= i < count ==> (#[trigger] done[i * stride(data) - 1]) == data[at + 2 * i + 1]
                &&& forall|i: int, r: int|
                    0 <= i < count - 1 && 0 <= r < stride(data) - 2 ==> (#[trigger] done[i * stride(
                        data,
                    ) + r]) == data[i * stride(data) + r]
            }
        }),
{
    let at = two(data, 4);
    let count = two(data, 6);
    let s = stride(data);
    layouts_are_update_sequences(data);
    let (answer, done) = fixup_result(data, allow_restored);
    if has_update_sequence(data) {
        assert forall|i: int| 1 <= i < count implies #[trigger] ends_in(data, i, at)
            == sector_ends_with(data, s, i, at) by {}
        assert forall|i: int| 1 <= i < count implies #[trigger] ends_in(data, i, at + 2 * i)
            == sector_ends_with(data, s, i, at + i * 2) by {}
        assert(is_marked(data) <==> sectors_are_raw(data, at, count, s)) by {
            assert forall|i: int| 1 <= i < count implies #[trigger] sector_ends_with(
                data,
                s,
                i,
                at,
            ) == ends_in(data, i, at) by {}
        }
        assert(is_unmarked(data) <==> sectors_are_restored(data, at, count, s)) by {
            assert forall|i: int| 1 <= i < count implies #[trigger] sector_ends_with(
                data,
                s,
                i,
                at + i * 2,
            ) == ends_in(data, i, at + 2 * i) by {}
        }
        if is_marked(data) {
            vstd::arithmetic::div_mod::lemma_fundamental_div_mod(data.len() as int, count - 1);
            assert(done == repaired(data, at, s));
            assert forall|i: int, r: int| 0 <= i < count - 1 && 0 <= r < s implies 0 <= #[trigger] (i
                * s + r) < data.len() && (i * s + r) % s == r && (i * s + r) / s == i by {
                places_in_sectors(i, r, s, count - 1);
            }
            assert forall|i: int, r: int|
                0 <= i < count - 1 && 0 <= r < s - 2 implies (#[trigger] done[i * s + r]) == data[i
                * s + r] by {
                places_in_sectors(i, r, s, count - 1);
            }
            assert forall|i: int| 1 <= i < count implies (#[trigger] done[i * s - 2]) == data[at + 2
                * i] by {
                places_in_sectors(i - 1, s - 2, s, count - 1);
                assert((i - 1) * s + (s - 2) == i * s - 2) by (nonlinear_arith);
            }
            assert forall|i: int| 1 <= i < count implies (#[trigger] done[i * s - 1]) == data[at + 2
                * i + 1] by {
                places_in_sectors(i - 1, s - 1, s, count - 1);
                assert((i - 1) * s + (s - 1) == i * s - 1) by (nonlinear_arith);
            }
        }
    }
}

proof fn places_in_sectors(i: int, r: int, s: int, n: int)
    requires
        0 <= i < n,
        0 <= r < s,
    ensures
        0 <= i * s + r < n * s,
        (i * s + r) % s == r,
        (i * s + r) / s == i,
{
    vstd::arithmetic::div_mod::lemma_fundamental_div_mod_converse(i * s + r, s, i, r);
    assert(0 <= i * s + r < n * s) by (nonlinear_arith)
        requires
            0 <= i < n,
            0 <= r < s,
    ;
}

/// Whether run `j` is the first that holds a cluster of the stream.
pub open spec fn is_first_run(mapping: Seq<Run>, j: int, vcn: int) -> bool {
    &&& 0 <= j < mapping.len()
    &&& mapping[j].vcn <= vcn < mapping[j].vcn + mapping[j].clusters
    &&& forall|k: int|
        0 <= k < j ==> !((#[trigger] mapping[k]).vcn <= vcn < mapping[k].vcn + mapping[k].clusters)
}

proof fn the_first_run_is_found(mapping: Seq<Run>, vcn: int, from: int)
    requires
        0 <= from <= mapping.len(),
        forall|k: int|
            0 <= k < from ==> !((#[trigger] mapping[k]).vcn <= vcn < mapping[k].vcn
                + mapping[k].clusters),
    ensures
        match run_of(mapping, vcn, from) {
            Some(run) => exists|j: int| #[trigger] is_first_run(mapping, j, vcn) && mapping[j] == run,
            None => forall|j: int| !#[trigger] is_first_run(mapping, j, vcn),
        },
    decreases mapping.len() - from,
{
    if from < mapping.len() {
        if run_holds(mapping[from], vcn) {
            assert(is_first_run(mapping, from, vcn));
        } else {
            the_first_run_is_found(mapping, vcn, from + 1);
        }
    }
}

/// Where byte `at` of a stream stands on the volume, when it lies in `run`.
pub open spec fn place_in(run: Run, cluster: int, at: int) -> int {
    run.lcn->0 * cluster + (at - run.vcn * cluster)
}

/// Whether a piece holds the bytes of a stream from `logical` on, as they stand on
/// the volume in `run`: whole sectors and no more than are needed, within the volume,
/// and as many bytes as are left or as the run has.
pub open spec fn is_piece_of(
    piece: Piece,
    run: Run,
    g: Geometry,
    logical: int,
    left: int,
) -> bool {
    let s = g.sector as int;
    let c = g.cluster as int;
    &&& run.lcn is Some
    &&& piece.offset + piece.prefix == place_in(run, c, logical)
    &&& piece.offset as int % s == 0
    &&& piece.prefix < s
    &&& piece.length as int % s == 0
    &&& piece.prefix + piece.count <= piece.length < piece.prefix + piece.count + s
    &&& piece.offset + piece.length <= g.volume_bytes
    &&& 0 < piece.count <= left
    &&& logical + piece.count <= (run.vcn + run.clusters) * c
    &&& piece.count == left || logical + piece.count == (run.vcn + run.clusters) * c
}

/// A piece of a stream is read from the first run that holds its first byte. It is
/// refused where no run does, where that run is sparse, and where the numbers do not
/// fit or the sectors do not lie within the volume.
pub proof fn pieces_are_read_from_their_run(
    mapping: Seq<Run>,
    g: Geometry,
    logical: int,
    left: int,
    j: int,
)
    requires
        g.sector > 0,
        g.cluster > 0,
        0 <= logical,
        0 < left <= u64::MAX,
    ensures
        piece_at(mapping, g, logical, left) is Ok ==> exists|k: int| #[trigger]
            is_first_run(mapping, k, logical / (g.cluster as int)),
        is_first_run(mapping, j, logical / (g.cluster as int)) ==> {
            let run = mapping[j];
            let c = g.cluster as int;
            &&& piece_at(mapping, g, logical, left) matches Ok(piece) ==> is_piece_of(
                piece,
                run,
                g,
                logical,
                left,
            )
            &&& run.lcn is Some && logical <= u64::MAX && run.clusters * c <= u64::MAX && place_in(
                run,
                c,
                logical,
            ) + left + g.sector <= g.volume_bytes ==> piece_at(mapping, g, logical, left) is Ok
        },
{
    let c = g.cluster as int;
    let s = g.sector as int;
    the_first_run_is_found(mapping, logical / c, 0);
    if is_first_run(mapping, j, logical / c) && logical <= u64::MAX {
        let run = run_of(mapping, logical / c, 0)->0;
        let k = choose|k: int| #[trigger]
            is_first_run(mapping, k, logical / c) && mapping[k] == run;
        assert(k == j) by {
            if k < j {
                assert(!(mapping[k].vcn <= logical / c < mapping[k].vcn + mapping[k].clusters));
            }
            if j < k {
                assert(!(mapping[j].vcn <= logical / c < mapping[j].vcn + mapping[j].clusters));
            }
        }
        bytes_lie_in_their_run(run, c, logical);
        if run.lcn is Some {
            let physical = place_in(run, c, logical);
            let prefix = physical % s;
            let available = run.clusters * c - (logical - run.vcn * c);
            let count = if left < available {
                left
            } else {
                available
            };
            assert((run.vcn + run.clusters) * c == run.vcn * c + run.clusters * c)
                by (nonlinear_arith);
            let w = prefix + count + s - 1;
            assert(run.lcn->0 * c >= 0) by (nonlinear_arith)
                requires
                    c > 0,
                    run.lcn->0 >= 0,
            ;
            assert(physical >= 0);
            sectors_bound(physical, s);
            sectors_bound(w, s);
            let length = w / s * s;
            assert(length % s == 0) by (nonlinear_arith)
                requires
                    length == w / s * s,
                    s > 0,
            ;
            vstd::arithmetic::div_mod::lemma_fundamental_div_mod(physical, s);
            assert(s * (physical / s) == physical / s * s) by (nonlinear_arith);
            assert((physical - prefix) % s == 0) by (nonlinear_arith)
                requires
                    physical - prefix == s * (physical / s),
                    s > 0,
            ;
            if let Ok(piece) = piece_at(mapping, g, logical, left) {
                assert(physical - prefix + length <= g.volume_bytes);
                assert(piece.offset == physical - prefix);
                assert(piece.length == length);
                assert(piece.prefix == prefix);
                assert(piece.count == count);
            }
        }
    }
}

/// An attribute that holds a part of the record file: its data without a name.
pub open spec fn is_data(attr: Seq<u8>) -> bool {
    four(attr, 0) == 0x80 && attr[9] == 0
}

proof fn an_attribute_adds(extents: Extents, attr: Seq<u8>)
    requires
        24 <= attr.len() <= usize::MAX,
        with_extent(extents, attr) is Ok,
    ensures
        ({
            let done = with_extent(extents, attr)->Ok_0;
            if is_data(attr) {
                &&& attr[8] == 1
                &&& two(attr, 12) == 0
                &&& runs_of(attr) is Ok
                &&& done.runs == extents.runs + runs_of(attr)->Ok_0
                &&& if eight(attr, 16) == 0 {
                    done.size == eight(attr, 48)
                } else {
                    done.size == extents.size
                }
            } else {
                done == extents
            }
        }),
{
    numbers_are_spelt_by_their_bytes(attr, 0);
    numbers_are_spelt_by_their_bytes(attr, 12);
    numbers_are_spelt_by_their_bytes(attr, 16);
    numbers_are_spelt_by_their_bytes(attr, 48);
}

proof fn runs_of_both(a: Seq<Run>, b: Seq<Run>, run: Run)
    ensures
        (a + b).contains(run) <==> a.contains(run) || b.contains(run),
{
    let both = a + b;
    if a.contains(run) {
        let i = choose|i: int| 0 <= i < a.len() && a[i] == run;
        assert(both[i] == run);
    }
    if b.contains(run) {
        let i = choose|i: int| 0 <= i < b.len() && b[i] == run;
        assert(both[a.len() + i] == run);
    }
    if both.contains(run) {
        let i = choose|i: int| 0 <= i < both.len() && both[i] == run;
        if i >= a.len() {
            assert(b[i - a.len()] == run);
        }
    }
}

/// Whether a run is one of those in a data attribute.
pub open spec fn is_run_in(attr: Seq<u8>, run: Run) -> bool {
    is_data(attr) && runs_of(attr) is Ok && runs_of(attr)->Ok_0.contains(run)
}

proof fn data_adds_its_runs(extents: Extents, attrs: Seq<Seq<u8>>, n: int, run: Run)
    requires
        0 <= n <= attrs.len(),
        forall|k: int| 0 <= k < attrs.len() ==> 24 <= (#[trigger] attrs[k]).len() <= usize::MAX,
        with_extents(extents, attrs, n) is Ok,
    ensures
        with_extents(extents, attrs, n)->Ok_0.runs.contains(run) <==> extents.runs.contains(run)
            || exists|k: int| 0 <= k < n && is_run_in(#[trigger] attrs[k], run),
    decreases n,
{
    if n > 0 {
        data_adds_its_runs(extents, attrs, n - 1, run);
        let before = with_extents(extents, attrs, n - 1)->Ok_0;
        let attr = attrs[n - 1];
        an_attribute_adds(before, attr);
        runs_of_both(before.runs, runs_of(attr)->Ok_0, run);
    }
}

/// The length of the record file is that in its last data attribute that starts at
/// the first cluster.
pub proof fn the_last_start_tells_the_length(
    extents: Extents,
    attrs: Seq<Seq<u8>>,
    n: int,
    k: int,
)
    requires
        0 <= k < n <= attrs.len(),
        forall|j: int| 0 <= j < attrs.len() ==> 24 <= (#[trigger] attrs[j]).len() <= usize::MAX,
        with_extents(extents, attrs, n) is Ok,
        is_data(attrs[k]),
        eight(attrs[k], 16) == 0,
        forall|j: int| k < j < n && is_data(#[trigger] attrs[j]) ==> eight(attrs[j], 16) != 0,
    ensures
        with_extents(extents, attrs, n)->Ok_0.size == eight(attrs[k], 48),
    decreases n,
{
    let before = with_extents(extents, attrs, n - 1)->Ok_0;
    an_attribute_adds(before, attrs[n - 1]);
    if k < n - 1 {
        the_last_start_tells_the_length(extents, attrs, n - 1, k);
    }
}

proof fn without_a_start_the_length_stays(extents: Extents, attrs: Seq<Seq<u8>>, n: int)
    requires
        0 <= n <= attrs.len(),
        forall|j: int| 0 <= j < attrs.len() ==> 24 <= (#[trigger] attrs[j]).len() <= usize::MAX,
        with_extents(extents, attrs, n) is Ok,
        forall|j: int| 0 <= j < n && is_data(#[trigger] attrs[j]) ==> eight(attrs[j], 16) != 0,
    ensures
        with_extents(extents, attrs, n)->Ok_0.size == extents.size,
    decreases n,
{
    if n > 0 {
        without_a_start_the_length_stays(extents, attrs, n - 1);
        let before = with_extents(extents, attrs, n - 1)->Ok_0;
        an_attribute_adds(before, attrs[n - 1]);
    }
}

/// Whether attribute `k` of record `r` is data that starts at the first cluster.
pub open spec fn is_start(records: Seq<Seq<u8>>, r: int, k: int) -> bool {
    let attrs = attributes_of(records[r])->Ok_0;
    &&& 0 <= r < records.len()
    &&& attributes_of(records[r]) is Ok
    &&& 0 <= k < attrs.len()
    &&& is_data(attrs[k])
    &&& eight(attrs[k], 16) == 0
}

/// Whether it is the last such attribute of the first `n` records.
pub open spec fn is_last_start(records: Seq<Seq<u8>>, n: int, r: int, k: int) -> bool {
    &&& r < n
    &&& is_start(records, r, k)
    &&& forall|s: int, l: int|
        s < n && #[trigger] is_start(records, s, l) ==> s < r || (s == r && l <= k)
}

proof fn the_length_is_announced(records: Seq<Seq<u8>>, n: int, r: int, k: int)
    requires
        0 <= n <= records.len(),
        forall|i: int| 0 <= i < records.len() ==> 28 <= (#[trigger] records[i]).len() <= usize::MAX,
        extents_of(records, n) is Ok,
    ensures
        is_last_start(records, n, r, k) ==> extents_of(records, n)->Ok_0.size == eight(
            attributes_of(records[r])->Ok_0[k],
            48,
        ),
        (forall|s: int, l: int| s < n ==> !#[trigger] is_start(records, s, l)) ==> extents_of(
            records,
            n,
        )->Ok_0.size == 0,
    decreases n,
{
    if n > 0 {
        the_length_is_announced(records, n - 1, r, k);
        let before = extents_of(records, n - 1)->Ok_0;
        let record = records[n - 1];
        let attrs = attributes_of(record)->Ok_0;
        attributes_are_those_that_stand_there(record, attrs);
        standing_attributes_are_long(record.take(four(record, 24)), two(record, 20), attrs);
        if is_last_start(records, n, r, k) && r == n - 1 {
            assert forall|j: int| k < j < attrs.len() && is_data(#[trigger] attrs[j]) implies eight(
                attrs[j],
                16,
            ) != 0 by {
                if eight(attrs[j], 16) == 0 {
                    assert(is_start(records, n - 1, j));
                }
            }
            the_last_start_tells_the_length(before, attrs, attrs.len() as int, k);
        } else if is_last_start(records, n, r, k) || forall|s: int, l: int|
            s < n ==> !#[trigger] is_start(records, s, l) {
            assert forall|j: int| 0 <= j < attrs.len() && is_data(#[trigger] attrs[j]) implies eight(
                attrs[j],
                16,
            ) != 0 by {
                if eight(attrs[j], 16) == 0 {
                    assert(is_start(records, n - 1, j));
                }
            }
            without_a_start_the_length_stays(before, attrs, attrs.len() as int);
            if is_last_start(records, n, r, k) {
                assert(is_last_start(records, n - 1, r, k));
            }
        }
    }
}

/// A record file is refused where it announces, in its last data attribute that starts
/// at the first cluster, less than the length that the volume tells; one without such
/// an attribute announces nothing.
pub proof fn short_record_files_are_refused(records: Seq<Seq<u8>>, g: Geometry, r: int, k: int)
    requires
        forall|i: int| 0 <= i < records.len() ==> 28 <= (#[trigger] records[i]).len() <= usize::MAX,
    ensures
        mapping_of(records, g) is Ok && is_last_start(records, records.len() as int, r, k) ==> eight(
            attributes_of(records[r])->Ok_0[k],
            48,
        ) >= g.length,
        mapping_of(records, g) is Ok && g.length > 0 ==> !(forall|s: int, l: int|
            !#[trigger] is_start(records, s, l)),
{
    if mapping_of(records, g) is Ok {
        the_length_is_announced(records, records.len() as int, r, k);
    }
}

/// Whether attribute `k` of record `r` is data of the record file in which a run stands.
pub open spec fn has_run(records: Seq<Seq<u8>>, r: int, k: int, run: Run) -> bool {
    let attrs = attributes_of(records[r])->Ok_0;
    &&& 0 <= r < records.len()
    &&& attributes_of(records[r]) is Ok
    &&& 0 <= k < attrs.len()
    &&& is_run_in(attrs[k], run)
}

proof fn records_add_their_runs(records: Seq<Seq<u8>>, n: int, run: Run)
    requires
        0 <= n <= records.len(),
        forall|r: int| 0 <= r < records.len() ==> 28 <= (#[trigger] records[r]).len() <= usize::MAX,
        extents_of(records, n) is Ok,
    ensures
        extents_of(records, n)->Ok_0.runs.contains(run) <==> exists|r: int, k: int|
            r < n && #[trigger] has_run(records, r, k, run),
    decreases n,
{
    if n > 0 {
        records_add_their_runs(records, n - 1, run);
        let before = extents_of(records, n - 1)->Ok_0;
        let record = records[n - 1];
        let attrs = attributes_of(record)->Ok_0;
        attributes_are_those_that_stand_there(record, attrs);
        standing_attributes_are_long(record.take(four(record, 24)), two(record, 20), attrs);
        data_adds_its_runs(before, attrs, attrs.len() as int, run);
        let done = extents_of(records, n)->Ok_0;
        if done.runs.contains(run) {
            if before.runs.contains(run) {
                let (r, k) = choose|r: int, k: int|
                    r < n - 1 && #[trigger] has_run(records, r, k, run);
                assert(has_run(records, r, k, run));
            } else {
                let k = choose|k: int| 0 <= k < attrs.len() && is_run_in(#[trigger] attrs[k], run);
                assert(has_run(records, n - 1, k, run));
            }
        }
        if exists|r: int, k: int| r < n && #[trigger] has_run(records, r, k, run) {
            let (r, k) = choose|r: int, k: int| r < n && #[trigger] has_run(records, r, k, run);
            if r < n - 1 {
                assert(before.runs.contains(run));
            } else {
                assert(is_run_in(attrs[k], run));
            }
        }
    }
}

proof fn a_run_is_put_in(runs: Seq<Run>, run: Run, x: Run)
    ensures
        with_run(runs, run).contains(x) <==> runs.contains(x) || x == run,
        with_run(runs, run).len() == runs.len() + 1,
    decreases runs.len(),
{
    let all = with_run(runs, run);
    if runs.len() == 0 || runs.last().vcn <= run.vcn {
        assert(all[runs.len() as int] == run);
        if runs.contains(x) {
            let i = choose|i: int| 0 <= i < runs.len() && runs[i] == x;
            assert(all[i] == x);
        }
    } else {
        let rest = runs.drop_last();
        a_run_is_put_in(rest, run, x);
        let before = with_run(rest, run);
        assert(all[before.len() as int] == runs.last());
        if runs.contains(x) {
            let i = choose|i: int| 0 <= i < runs.len() && runs[i] == x;
            if i < rest.len() {
                assert(rest[i] == x);
                assert(rest.contains(x));
            }
        }
        if before.contains(x) {
            let i = choose|i: int| 0 <= i < before.len() && before[i] == x;
            assert(all[i] == x);
        }
        if all.contains(x) {
            let i = choose|i: int| 0 <= i < all.len() && all[i] == x;
            if i < before.len() {
                assert(before.contains(x));
                if rest.contains(x) {
                    let j = choose|j: int| 0 <= j < rest.len() && rest[j] == x;
                    assert(runs[j] == x);
                }
            } else {
                assert(runs[runs.len() - 1] == x);
            }
        }
    }
}

proof fn sorting_keeps_the_runs(runs: Seq<Run>, x: Run)
    ensures
        sorted_runs(runs).contains(x) <==> runs.contains(x),
        sorted_runs(runs).len() == runs.len(),
    decreases runs.len(),
{
    if runs.len() > 0 {
        let rest = runs.drop_last();
        sorting_keeps_the_runs(rest, x);
        a_run_is_put_in(sorted_runs(rest), runs.last(), x);
        if runs.contains(x) {
            let i = choose|i: int| 0 <= i < runs.len() && runs[i] == x;
            if i < rest.len() {
                assert(rest[i] == x);
            }
        }
        if rest.contains(x) {
            let i = choose|i: int| 0 <= i < rest.len() && rest[i] == x;
            assert(runs[i] == x);
        }
        if x == runs.last() {
            assert(runs[runs.len() - 1] == x);
        }
    }
}

/// The mapping of the record file is made of exactly the runs in the data attributes
/// of its records. They follow each other from the first cluster on, all stand on the
/// volume, and reach at least as far as the record file is long.
pub proof fn mappings_hold_the_runs_of_the_record_file(
    records: Seq<Seq<u8>>,
    g: Geometry,
    run: Run,
    i: int,
)
    requires
        forall|r: int| 0 <= r < records.len() ==> 28 <= (#[trigger] records[r]).len() <= usize::MAX,
        mapping_of(records, g) is Ok,
    ensures
        ({
            let runs = mapping_of(records, g)->Ok_0;
            &&& runs.contains(run) <==> exists|r: int, k: int| #[trigger]
                has_run(records, r, k, run)
            &&& 0 <= i < runs.len() ==> runs[i].lcn is Some && runs[i].vcn == (if i == 0 {
                0
            } else {
                runs[i - 1].vcn + runs[i - 1].clusters
            })
            &&& g.length > 0 ==> runs.len() > 0 && (runs.last().vcn + runs.last().clusters)
                * g.cluster >= g.length
        }),
{
    let runs = mapping_of(records, g)->Ok_0;
    let n = records.len() as int;
    let extents = extents_of(records, n)->Ok_0;
    records_add_their_runs(records, n, run);
    sorting_keeps_the_runs(extents.runs, run);
    if exists|r: int, k: int| #[trigger] has_run(records, r, k, run) {
        let (r, k) = choose|r: int, k: int| #[trigger] has_run(records, r, k, run);
        assert(r < n && has_run(records, r, k, run));
    }
    if 0 <= i < runs.len() {
        mappings_are_contiguous(records, g, i);
    }
    let m = runs.len() as int;
    if m > 0 {
        assert(run_end(runs, m) == Ok::<int, Seq<char>>(
            runs[m - 1].vcn + runs[m - 1].clusters,
        ));
        assert(runs.last() == runs[m - 1]);
    } else {
        assert(run_end(runs, 0) == Ok::<int, Seq<char>>(0));
        assert(0 * g.cluster == 0) by (nonlinear_arith);
    }
}

/// The first attribute list of a record from attribute `from` on is read: one in the
/// record itself names the records in its entries, and one outside, of at most 16 MiB
/// and from its first cluster on, has its runs and its length.
pub proof fn the_next_list_is_found(attrs: Seq<Seq<u8>>, from: int)
    requires
        0 <= from <= attrs.len(),
        forall|k: int| 0 <= k < attrs.len() ==> 24 <= (#[trigger] attrs[k]).len() <= usize::MAX
            && is_well_formed(attrs[k]),
    ensures
        match next_list(attrs, from) {
            Ok(None) => forall|k: int| from <= k < attrs.len() ==> four(#[trigger] attrs[k], 0) != 0x20,
            Ok(Some((at, source))) => {
                &&& from <= at < attrs.len()
                &&& four(attrs[at], 0) == 0x20
                &&& forall|k: int| from <= k < at ==> four(#[trigger] attrs[k], 0) != 0x20
                &&& match source {
                    ListSourceView::Resident(refs) => attrs[at][8] == 0 && references_of(
                        listed(attrs[at]),
                    ) == Ok::<Seq<u64>, Seq<char>>(refs),
                    ListSourceView::Nonresident(runs, length) => attrs[at][8] == 1 && eight(
                        attrs[at],
                        16,
                    ) == 0 && length == eight(attrs[at], 48) && length <= 16_777_216 && runs_of(
                        attrs[at],
                    ) == Ok::<Seq<Run>, Seq<char>>(runs),
                }
            },
            Err(e) => exists|at: int|
                from <= at < attrs.len() && four(#[trigger] attrs[at], 0) == 0x20 && (if attrs[at][8]
                    == 0 {
                    references_of(listed(attrs[at])) is Err
                } else {
                    eight(attrs[at], 48) > 16_777_216 || eight(attrs[at], 16) != 0 || runs_of(
                        attrs[at],
                    ) is Err
                }),
        },
    decreases attrs.len() - from,
{
    if from < attrs.len() {
        let attr = attrs[from];
        numbers_are_spelt_by_their_bytes(attr, 0);
        if four(attr, 0) != 0x20 {
            the_next_list_is_found(attrs, from + 1);
        } else if attr[8] == 0 {
            numbers_are_spelt_by_their_bytes(attr, 16);
            numbers_are_spelt_by_their_bytes(attr, 20);
            assert(resident_value(attr) == Ok::<Seq<u8>, Seq<char>>(listed(attr)));
        } else {
            numbers_are_spelt_by_their_bytes(attr, 16);
            numbers_are_spelt_by_their_bytes(attr, 48);
        }
    }
}

proof fn marks_of_a_slot(data: Seq<u8>)
    requires
        24 <= data.len() <= usize::MAX,
    ensures
        starts_like_a_record(data) <==> data.take(4) == seq![0x46u8, 0x49, 0x4c, 0x45],
        number_at(data, 22, 2) == Ok::<int, Seq<char>>(two(data, 22)),
        (two(data, 22) as u16) & 1 == 0 <==> data[22] as int % 2 == 0,
{
    numbers_are_spelt_by_their_bytes(data, 22);
    let flags = two(data, 22) as u16;
    assert(flags & 1 != 0 <==> flags % 2 == 1) by (bit_vector);
    assert(flags as int % 2 == data[22] as int % 2);
    let head = data.take(4);
    if starts_like_a_record(data) {
        assert(head =~= seq![0x46u8, 0x49, 0x4c, 0x45]);
    }
    if head == seq![0x46u8, 0x49, 0x4c, 0x45] {
        assert(head[0] == 0x46 && head[1] == 0x49 && head[2] == 0x4c && head[3] == 0x45);
    }
}

/// A slot that is not in use, or holds nothing but zeros, is passed over. Of a slot
/// that is in use, the repaired record is taken into the index under the number of
/// the slot; where it cannot be repaired or read the index stays as it is.
#[verifier::spinoff_prover]
#[verifier::rlimit(40)]
pub proof fn slots_are_taken_in(ix: IndexView, data: Seq<u8>, number: u64)
    requires
        24 <= data.len() <= usize::MAX,
    ensures
        ({
            let (answer, after) = ingested(ix, data, number);
            let marked = data.take(4) == seq![0x46u8, 0x49, 0x4c, 0x45];
            let (fixed, whole) = fixup_result(data, false);
            &&& marked && data[22] as int % 2 == 0 ==> answer is Ok && after == ix
            &&& !marked ==> after == ix && (answer is Ok <==> forall|i: int|
                0 <= i < data.len() ==> data[i] == 0)
            &&& marked && data[22] as int % 2 == 1 ==> if fixed is Err || record_of(
                whole,
                number,
                true,
            ) is Err {
                answer is Err && after == ix
            } else {
                match record_of(whole, number, true)->Ok_0 {
                    None => answer is Ok && after == ix,
                    Some(rec) => after == ix.inserted(rec) && (answer is Err
                        <==> ix.records.contains_key(rec.key()) && ix.records[rec.key()].bytes is Some
                        && rec.bytes is Some && ix.records[rec.key()].bytes != rec.bytes),
                }
            }
        }),
{
    marks_of_a_slot(data);
}


/// The record file is read to its end in chunks of 4 MiB, the last one shorter where
/// need be: no chunk reaches beyond the end, and only there is there none.
pub proof fn chunks_reach_the_end(length: int, offset: int)
    requires
        0 <= offset,
        0 <= length,
    ensures
        next_chunk(length, offset) == 0 <==> offset >= length,
        0 <= next_chunk(length, offset) <= 4_194_304,
        offset < length ==> offset + next_chunk(length, offset) <= length,
        offset < length && next_chunk(length, offset) < 4_194_304 ==> offset + next_chunk(
            length,
            offset,
        ) == length,
{
}

/// Slots are numbered from the start of the record file: the one that starts at byte
/// `n * record` has the number `n`, in whatever chunk it is read.
pub proof fn slots_are_numbered_from_the_start(g: Geometry, first: int, i: int)
    requires
        g.record > 0,
        0 <= first,
    ensures
        slot_at(g, first * g.record, i) == first + i,
{
    vstd::arithmetic::div_mod::lemma_div_by_multiple(first, g.record as int);
}

} // verus!
