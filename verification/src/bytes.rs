//! Checked reading of little-endian numbers out of raw bytes.
use vstd::prelude::*;

verus! {

/// The number that one or more little-endian bytes spell.
pub open spec fn le(bytes: Seq<u8>) -> int
    decreases bytes.len(),
{
    if bytes.len() == 0 {
        0
    } else {
        bytes[0] + 256 * le(bytes.drop_first())
    }
}

/// 256 to the power `n`.
pub open spec fn pow256(n: int) -> int
    decreases n,
{
    if n <= 0 {
        1
    } else {
        256 * pow256(n - 1)
    }
}

/// A number spelt by `n` bytes is smaller than 256 to the power `n`.
pub proof fn le_bound(bytes: Seq<u8>)
    ensures
        0 <= le(bytes) < pow256(bytes.len() as int),
    decreases bytes.len(),
{
    if bytes.len() > 0 {
        le_bound(bytes.drop_first());
    }
}

/// The powers of 256 that numbers of up to eight bytes need.
pub proof fn pow256_values()
    ensures
        pow256(0) == 1,
        pow256(1) == 0x100,
        pow256(2) == 0x1_0000,
        pow256(3) == 0x100_0000,
        pow256(4) == 0x1_0000_0000,
        pow256(5) == 0x100_0000_0000,
        pow256(6) == 0x1_0000_0000_0000,
        pow256(7) == 0x100_0000_0000_0000,
        pow256(8) == 0x1_0000_0000_0000_0000,
{
    reveal_with_fuel(pow256, 9);
}

/// Reads up to eight little-endian bytes.
pub fn read_le(bytes: &[u8]) -> (r: u64)
    requires
        bytes@.len() <= 8,
    ensures
        r == le(bytes@),
{
    let mut value: u64 = 0;
    let mut i: usize = bytes.len();
    assert(bytes@.skip(i as int) =~= seq![]);
    while i > 0
        invariant
            i <= bytes@.len() <= 8,
            value == le(bytes@.skip(i as int)),
        decreases i,
    {
        i -= 1;
        proof {
            let rest = bytes@.skip(i as int);
            assert(rest.drop_first() =~= bytes@.skip(i + 1));
            le_bound(rest);
            pow256_values();
            assert(rest.len() <= 8);
            assert(pow256(rest.len() as int) <= 0x1_0000_0000_0000_0000);
        }
        value = bytes[i] as u64 + 256 * value;
    }
    assert(bytes@.skip(0) =~= bytes@);
    value
}

/// Part of `data`, or why it cannot be taken.
pub open spec fn sliced(data: Seq<u8>, offset: int, len: int) -> Result<Seq<u8>, Seq<char>> {
    if offset + len > usize::MAX {
        Err("NTFS offset overflow"@)
    } else if offset + len > data.len() {
        Err("NTFS record is truncated"@)
    } else {
        Ok(data.subrange(offset, offset + len))
    }
}

/// The little-endian number of `width` bytes at `offset`, or why it cannot be read.
pub open spec fn number_at(data: Seq<u8>, offset: int, width: int) -> Result<int, Seq<char>> {
    match sliced(data, offset, width) {
        Ok(bytes) => Ok(le(bytes)),
        Err(e) => Err(e),
    }
}

/// Takes `len` bytes at `offset`.
pub fn slice(data: &[u8], offset: usize, len: usize) -> (r: Result<&[u8], String>)
    ensures
        match r {
            Ok(s) => sliced(data@, offset as int, len as int) == Ok::<Seq<u8>, Seq<char>>(s@),
            Err(e) => sliced(data@, offset as int, len as int) == Err::<Seq<u8>, Seq<char>>(e@),
        },
{
    match offset.checked_add(len) {
        None => Err("NTFS offset overflow".to_string()),
        Some(end) => if end > data.len() {
            Err("NTFS record is truncated".to_string())
        } else {
            Ok(&data[offset..end])
        },
    }
}

/// Reads the 16-bit number at `offset`.
pub fn u16_at(data: &[u8], offset: usize) -> (r: Result<u16, String>)
    ensures
        match r {
            Ok(v) => number_at(data@, offset as int, 2) == Ok::<int, Seq<char>>(v as int),
            Err(e) => number_at(data@, offset as int, 2) == Err::<int, Seq<char>>(e@),
        },
{
    let bytes = slice(data, offset, 2)?;
    proof {
        le_bound(bytes@);
        pow256_values();
    }
    Ok(read_le(bytes) as u16)
}

/// Reads the 32-bit number at `offset`.
pub fn u32_at(data: &[u8], offset: usize) -> (r: Result<u32, String>)
    ensures
        match r {
            Ok(v) => number_at(data@, offset as int, 4) == Ok::<int, Seq<char>>(v as int),
            Err(e) => number_at(data@, offset as int, 4) == Err::<int, Seq<char>>(e@),
        },
{
    let bytes = slice(data, offset, 4)?;
    proof {
        le_bound(bytes@);
        pow256_values();
    }
    Ok(read_le(bytes) as u32)
}

/// Reads the 64-bit number at `offset`.
pub fn u64_at(data: &[u8], offset: usize) -> (r: Result<u64, String>)
    ensures
        match r {
            Ok(v) => number_at(data@, offset as int, 8) == Ok::<int, Seq<char>>(v as int),
            Err(e) => number_at(data@, offset as int, 8) == Err::<int, Seq<char>>(e@),
        },
{
    let bytes = slice(data, offset, 8)?;
    Ok(read_le(bytes))
}

/// Whether a number is a power of two.
pub open spec fn power_of_two(n: int) -> bool
    decreases n,
{
    n == 1 || (n > 1 && n % 2 == 0 && power_of_two(n / 2))
}

/// Whether `n` is a power of two.
pub fn is_power_of_two(n: u64) -> (r: bool)
    ensures
        r == power_of_two(n as int),
{
    let mut m: u64 = n;
    while m > 1 && m % 2 == 0
        invariant
            power_of_two(m as int) == power_of_two(n as int),
        decreases m,
    {
        m = m / 2;
    }
    m == 1
}

/// Whether all bytes from `from` on are zero.
pub open spec fn zero_from(data: Seq<u8>, from: int) -> bool {
    forall|i: int| from <= i < data.len() ==> data[i] == 0
}

/// Whether all bytes from `from` on are zero.
pub fn is_zero_from(data: &[u8], from: usize) -> (r: bool)
    ensures
        r == zero_from(data@, from as int),
{
    let mut i: usize = from;
    while i < data.len()
        invariant
            from <= i,
            forall|j: int| from <= j < i && j < data@.len() ==> data@[j] == 0,
        decreases data@.len() - i,
    {
        if data[i] != 0 {
            return false;
        }
        i += 1;
    }
    true
}

/// The `n` little-endian bytes of a number.
pub open spec fn le_bytes(value: int, n: int) -> Seq<u8>
    decreases n,
{
    if n <= 0 {
        seq![]
    } else {
        seq![(value % 256) as u8] + le_bytes(value / 256, n - 1)
    }
}

/// A number that fits survives the way through its bytes.
pub proof fn le_round_trip(value: int, n: int)
    requires
        0 <= n,
        0 <= value < pow256(n),
    ensures
        le_bytes(value, n).len() == n,
        le(le_bytes(value, n)) == value,
    decreases n,
{
    if n > 0 {
        le_round_trip(value / 256, n - 1);
        assert(le_bytes(value, n).drop_first() =~= le_bytes(value / 256, n - 1));
    }
}

/// Appends the `n` little-endian bytes of a number.
pub fn push_le(data: &mut Vec<u8>, value: u64, n: usize)
    ensures
        final(data)@ == old(data)@ + le_bytes(value as int, n as int),
{
    let ghost before = data@;
    let mut rest: u64 = value;
    let mut left: usize = n;
    assert(data@ + le_bytes(value as int, n as int) =~= before + le_bytes(value as int, n as int));
    while left > 0
        invariant
            data@ + le_bytes(rest as int, left as int) == before + le_bytes(
                value as int,
                n as int,
            ),
        decreases left,
    {
        let ghost start = data@;
        data.push((rest % 256) as u8);
        assert(data@ + le_bytes(rest as int / 256, left - 1) =~= start + le_bytes(
            rest as int,
            left as int,
        ));
        rest = rest / 256;
        left = left - 1;
    }
    assert(data@ =~= data@ + le_bytes(rest as int, 0));
}

/// A copy of bytes.
pub fn copy_bytes(data: &[u8]) -> (r: Vec<u8>)
    ensures
        r@ == data@,
{
    let mut r: Vec<u8> = Vec::new();
    let mut i: usize = 0;
    while i < data.len()
        invariant
            i <= data@.len(),
            r@ == data@.take(i as int),
        decreases data@.len() - i,
    {
        r.push(data[i]);
        i += 1;
        assert(r@ =~= data@.take(i as int));
    }
    assert(r@ =~= data@);
    r
}

} // verus!
