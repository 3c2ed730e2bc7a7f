//! Saved maps: the rows that hold one, and the checks before one is shown again.
use vstd::prelude::*;
use crate::bytes::{le, le_bytes, le_round_trip, pow256_values, push_le, read_le};
use crate::path::FolderPath;
use crate::raw::{bytes_of_units, raw_bytes, raw_paths_survive, raw_units, units_of_bytes};
use crate::time::{representable, Timestamp, NANOS_PER_SECOND};

pub mod restore;
pub mod row_laws;
pub mod snapshot;

verus! {

/// The version of the saved form.
pub const VERSION: i64 = 1;

/// The mark that the database belongs to this program.
pub const APPLICATION: i64 = 0x44554d50;

/// The number in eight saved bytes.
pub open spec fn saved_number(bytes: Seq<u8>) -> Result<u64, Seq<char>> {
    if bytes.len() == 8 {
        Ok(le(bytes) as u64)
    } else {
        Err("Invalid cached integer"@)
    }
}

/// The number in eight saved bytes.
pub fn number(bytes: &Vec<u8>) -> (r: Result<u64, String>)
    ensures
        match r {
            Ok(n) => saved_number(bytes@) == Ok::<u64, Seq<char>>(n) && n == le(bytes@),
            Err(e) => saved_number(bytes@) == Err::<u64, Seq<char>>(e@),
        },
{
    if bytes.len() != 8 {
        return Err("Invalid cached integer".to_string());
    }
    Ok(read_le(bytes.as_slice()))
}

/// The eight bytes in which a number is saved.
pub fn number_bytes(n: u64) -> (r: Vec<u8>)
    ensures
        r@ == le_bytes(n as int, 8),
{
    let mut r: Vec<u8> = Vec::new();
    push_le(&mut r, n, 8);
    assert(r@ =~= le_bytes(n as int, 8));
    r
}

/// Every number survives saving.
pub proof fn numbers_survive(n: u64)
    ensures
        saved_number(le_bytes(n as int, 8)) == Ok::<u64, Seq<char>>(n),
{
    pow256_values();
    le_round_trip(n as int, 8);
}

/// A saved position.
pub open spec fn saved_index(value: i64) -> Result<usize, Seq<char>> {
    if 0 <= value <= usize::MAX {
        Ok(value as usize)
    } else {
        Err("Invalid cached index"@)
    }
}

/// A saved position.
pub fn index(value: i64) -> (r: Result<usize, String>)
    ensures
        match r {
            Ok(n) => saved_index(value) == Ok::<usize, Seq<char>>(n) && n == value,
            Err(e) => saved_index(value) == Err::<usize, Seq<char>>(e@),
        },
{
    if value < 0 || value as u64 > usize::MAX as u64 {
        return Err("Invalid cached index".to_string());
    }
    Ok(value as usize)
}

/// The thirteen bytes of an instant: before the epoch or not, whole seconds
/// from it, and the nanoseconds that remain.
pub open spec fn time_bytes(t: int) -> Seq<u8> {
    let distance = if t < 0 {
        -t
    } else {
        t
    };
    seq![
        if t < 0 {
            1u8
        } else {
            0u8
        },
    ] + le_bytes(distance / (NANOS_PER_SECOND as int), 8) + le_bytes(
        distance % (NANOS_PER_SECOND as int),
        4,
    )
}

/// The instant in saved bytes.
pub open spec fn saved_time(bytes: Seq<u8>) -> Result<Timestamp, Seq<char>> {
    if bytes.len() != 13 || bytes[0] > 1 {
        Err("Invalid cached timestamp"@)
    } else {
        let seconds = le(bytes.subrange(1, 9));
        let nanos = le(bytes.subrange(9, 13));
        let distance = seconds * NANOS_PER_SECOND + nanos;
        let t = if bytes[0] == 0 {
            distance
        } else {
            -distance
        };
        if nanos >= NANOS_PER_SECOND {
            Err("Invalid cached nanoseconds"@)
        } else if !representable(t) {
            Err("Cached timestamp out of range"@)
        } else {
            Ok(Timestamp::at(t))
        }
    }
}

/// The bytes in which an instant is saved.
pub fn encode_time(time: Timestamp) -> (r: Vec<u8>)
    ensures
        r@ == time_bytes(time@),
{
    let t: i128 = time.nanos();
    let distance: i128 = if t < 0 {
        -t
    } else {
        t
    };
    let mut r: Vec<u8> = Vec::new();
    r.push(
        if t < 0 {
            1
        } else {
            0
        },
    );
    let ghost sign = r@;
    let seconds: i128 = distance / NANOS_PER_SECOND;
    let nanos: i128 = distance % NANOS_PER_SECOND;
    push_le(&mut r, seconds as u64, 8);
    push_le(&mut r, nanos as u64, 4);
    assert(sign =~= seq![
        if t < 0 {
            1u8
        } else {
            0u8
        },
    ]);
    r
}

/// The instant in saved bytes.
pub fn decode_time(bytes: &Vec<u8>) -> (r: Result<Timestamp, String>)
    ensures
        match r {
            Ok(t) => saved_time(bytes@) == Ok::<Timestamp, Seq<char>>(t),
            Err(e) => saved_time(bytes@) == Err::<Timestamp, Seq<char>>(e@),
        },
{
    if bytes.len() != 13 || bytes[0] > 1 {
        return Err("Invalid cached timestamp".to_string());
    }
    let seconds: u64 = read_le(&bytes[1..9]);
    let nanos: u64 = read_le(&bytes[9..13]);
    if nanos >= 1_000_000_000 {
        return Err("Invalid cached nanoseconds".to_string());
    }
    let distance: i128 = seconds as i128 * NANOS_PER_SECOND + nanos as i128;
    let t: i128 = if bytes[0] == 0 {
        distance
    } else {
        -distance
    };
    match Timestamp::from_nanos(t) {
        Some(time) => Ok(time),
        None => Err("Cached timestamp out of range".to_string()),
    }
}

/// Every instant survives saving.
pub proof fn times_survive(time: Timestamp)
    requires
        representable(time@),
    ensures
        saved_time(time_bytes(time@)) == Ok::<Timestamp, Seq<char>>(time),
{
    let t = time@;
    let distance = if t < 0 {
        -t
    } else {
        t
    };
    let seconds = distance / (NANOS_PER_SECOND as int);
    let nanos = distance % (NANOS_PER_SECOND as int);
    pow256_values();
    le_round_trip(seconds, 8);
    le_round_trip(nanos, 4);
    let bytes = time_bytes(t);
    assert(bytes.subrange(1, 9) =~= le_bytes(seconds, 8));
    assert(bytes.subrange(9, 13) =~= le_bytes(nanos, 4));
    crate::time::timestamp_is_its_distance(time);
}

/// The bytes of UTF-16 units, low byte first.
pub open spec fn unit_bytes(units: Seq<u16>) -> Seq<u8> {
    Seq::new(
        2 * units.len(),
        |i: int|
            if i % 2 == 0 {
                (units[i / 2] % 256) as u8
            } else {
                (units[i / 2] / 256) as u8
            },
    )
}

/// The UTF-16 units in bytes.
pub open spec fn byte_units(bytes: Seq<u8>) -> Seq<u16> {
    Seq::new(
        bytes.len() / 2,
        |i: int| (bytes[2 * i] + 256 * bytes[2 * i + 1]) as u16,
    )
}

/// The bytes of a path: its units on Windows, and elsewhere the bytes that the
/// system itself knows it by.
pub open spec fn path_bytes(units: Seq<u16>, windows: bool) -> Seq<u8> {
    if windows {
        unit_bytes(units)
    } else {
        raw_bytes(units)
    }
}

/// The path in saved bytes, as units.
pub open spec fn saved_path(bytes: Seq<u8>, windows: bool) -> Result<Seq<u16>, Seq<char>> {
    if !windows {
        if bytes.contains(0) {
            Err("Invalid path with NUL"@)
        } else {
            Ok(raw_units(bytes))
        }
    } else if bytes.len() % 2 != 0 {
        Err("Invalid UTF-16 path"@)
    } else if byte_units(bytes).contains(0) {
        Err("Invalid path with NUL"@)
    } else {
        Ok(byte_units(bytes))
    }
}

/// The bytes of UTF-16 units.
pub fn encode_units(units: &Vec<u16>) -> (r: Vec<u8>)
    ensures
        r@ == unit_bytes(units@),
{
    let mut r: Vec<u8> = Vec::new();
    let mut i: usize = 0;
    while i < units.len()
        invariant
            i <= units@.len(),
            r@.len() == 2 * i,
            forall|k: int| 0 <= k < 2 * i ==> #[trigger] r@[k] == unit_bytes(units@)[k],
        decreases units@.len() - i,
    {
        let u: u16 = units[i];
        r.push((u % 256) as u8);
        r.push((u / 256) as u8);
        i += 1;
    }
    assert(r@ =~= unit_bytes(units@));
    r
}

/// The bytes in which a path is saved.
pub fn encode_path(path: &FolderPath, windows: bool) -> (r: Vec<u8>)
    ensures
        r@ == path_bytes(path@.written, windows),
{
    if windows {
        encode_units(&path.written)
    } else {
        bytes_of_units(&path.written)
    }
}

/// Whether bytes hold a NUL.
fn has_nul(bytes: &Vec<u8>) -> (r: bool)
    ensures
        r == bytes@.contains(0),
{
    let mut i: usize = 0;
    while i < bytes.len()
        invariant
            i <= bytes@.len(),
            forall|k: int| 0 <= k < i ==> bytes@[k] != 0,
        decreases bytes@.len() - i,
    {
        if bytes[i] == 0 {
            return true;
        }
        i += 1;
    }
    false
}

/// The path in saved bytes, as units.
pub fn decode_path(bytes: &Vec<u8>, windows: bool) -> (r: Result<Vec<u16>, String>)
    ensures
        match r {
            Ok(units) => saved_path(bytes@, windows) == Ok::<Seq<u16>, Seq<char>>(units@),
            Err(e) => saved_path(bytes@, windows) == Err::<Seq<u16>, Seq<char>>(e@),
        },
{
    if !windows {
        if has_nul(bytes) {
            return Err("Invalid path with NUL".to_string());
        }
        return Ok(units_of_bytes(bytes.as_slice()));
    }
    if bytes.len() % 2 != 0 {
        return Err("Invalid UTF-16 path".to_string());
    }
    let mut units: Vec<u16> = Vec::new();
    let mut i: usize = 0;
    let mut nul: bool = false;
    while i < bytes.len()
        invariant
            i <= bytes@.len(),
            i % 2 == 0,
            bytes@.len() % 2 == 0,
            units@.len() == i / 2,
            forall|k: int| 0 <= k < i / 2 ==> #[trigger] units@[k] == byte_units(bytes@)[k],
            nul == (exists|k: int| 0 <= k < i / 2 && #[trigger] byte_units(bytes@)[k] == 0),
        decreases bytes@.len() - i,
    {
        let u: u16 = bytes[i] as u16 + 256 * bytes[i + 1] as u16;
        assert(byte_units(bytes@)[i as int / 2] == u);
        units.push(u);
        if u == 0 {
            nul = true;
        }
        i += 2;
    }
    assert(units@ =~= byte_units(bytes@));
    if nul {
        return Err("Invalid path with NUL".to_string());
    }
    Ok(units)
}

/// Whether a system can know a path by these units: they hold no NUL, and
/// where paths are bytes, they are the units of some.
pub open spec fn is_path(units: Seq<u16>, windows: bool) -> bool {
    if windows {
        !units.contains(0)
    } else {
        exists|bytes: Seq<u8>| !bytes.contains(0) && #[trigger] raw_units(bytes) == units
    }
}

/// Every path survives saving: unpaired surrogates on Windows, and bytes that
/// are no UTF-8 elsewhere, included.
pub proof fn paths_survive(units: Seq<u16>, windows: bool)
    requires
        is_path(units, windows),
    ensures
        saved_path(path_bytes(units, windows), windows) == Ok::<Seq<u16>, Seq<char>>(units),
{
    if windows {
        assert(byte_units(unit_bytes(units)) =~= units);
    } else {
        let bytes = choose|bytes: Seq<u8>|
            !bytes.contains(0) && #[trigger] raw_units(bytes) == units;
        raw_paths_survive(bytes);
    }
}

/// A unit as keys compare it: letters of the Latin alphabet in lower case, and
/// one kind of separator.
pub open spec fn folded_unit(u: u16) -> u16 {
    if 65 <= u <= 90 {
        (u + 32) as u16
    } else if u == 47 {
        92
    } else {
        u
    }
}

/// Units without the separators at their end, but never fewer than three.
pub open spec fn without_trailing_separators(units: Seq<u16>) -> Seq<u16>
    decreases units.len(),
{
    if units.len() > 3 && units.last() == 92 {
        without_trailing_separators(units.drop_last())
    } else {
        units
    }
}

/// What tells apart the maps that are saved: the root's absolute path, folded
/// on Windows, where the file system ignores case.
pub open spec fn key_units(units: Seq<u16>, windows: bool) -> Seq<u16> {
    if windows {
        without_trailing_separators(units.map_values(|u: u16| folded_unit(u)))
    } else {
        units
    }
}

/// The key of a map, in bytes.
pub open spec fn key_bytes(units: Seq<u16>, windows: bool) -> Seq<u8> {
    path_bytes(key_units(units, windows), windows)
}

/// The key of a map, from its root's absolute path.
pub fn key(units: &Vec<u16>, windows: bool) -> (r: Vec<u8>)
    ensures
        r@ == key_bytes(units@, windows),
{
    if !windows {
        return bytes_of_units(units);
    }
    let ghost folded = units@.map_values(|u: u16| folded_unit(u));
    let mut wide: Vec<u16> = Vec::new();
    let mut i: usize = 0;
    while i < units.len()
        invariant
            i <= units@.len(),
            folded == units@.map_values(|u: u16| folded_unit(u)),
            wide@ == folded.take(i as int),
        decreases units@.len() - i,
    {
        let u: u16 = units[i];
        let c: u16 = if u >= 65 && u <= 90 {
            u + 32
        } else if u == 47 {
            92
        } else {
            u
        };
        wide.push(c);
        i += 1;
        assert(wide@ =~= folded.take(i as int));
    }
    assert(wide@ =~= folded);
    while wide.len() > 3 && wide[wide.len() - 1] == 92
        invariant
            without_trailing_separators(wide@) == without_trailing_separators(folded),
        decreases wide@.len(),
    {
        let ghost before = wide@;
        wide.pop();
        assert(wide@ =~= before.drop_last());
    }
    encode_units(&wide)
}

/// Keys ignore the case of Latin letters and the kind of separator.
pub proof fn keys_ignore_case(a: Seq<u16>, b: Seq<u16>)
    requires
        a.len() == b.len(),
        forall|i: int| 0 <= i < a.len() ==> folded_unit(#[trigger] a[i]) == folded_unit(b[i]),
    ensures
        key_units(a, true) == key_units(b, true),
{
    assert(a.map_values(|u: u16| folded_unit(u)) =~= b.map_values(|u: u16| folded_unit(u)));
}

/// Keys ignore a separator at the end of a path that is longer than a drive's root.
pub proof fn keys_ignore_trailing_separators(a: Seq<u16>, separator: u16)
    requires
        a.len() >= 3,
        separator == 92 || separator == 47,
    ensures
        key_units(a.push(separator), true) == key_units(a, true),
{
    let f = |u: u16| folded_unit(u);
    let long = a.push(separator).map_values(f);
    assert(long.drop_last() =~= a.map_values(f));
}

/// The message for a database of another form.
pub open spec fn other_form() -> Seq<char> {
    "저장 DB 형식이 이 버전과 호환되지 않습니다. DB를 다른 이름으로 옮긴 뒤 다시 스캔하세요."@
}

/// Whether a database has the form that this program writes.
pub fn check_schema(version: i64, application: i64) -> (r: Result<(), String>)
    ensures
        match r {
            Ok(_) => version == VERSION && application == APPLICATION,
            Err(e) => !(version == VERSION && application == APPLICATION) && e@ == other_form(),
        },
{
    if version != VERSION || application != APPLICATION {
        return Err(
            "저장 DB 형식이 이 버전과 호환되지 않습니다. DB를 다른 이름으로 옮긴 뒤 다시 스캔하세요.".to_string(),
        );
    }
    Ok(())
}

/// Whether a database is new, so that its tables are to be made.
pub fn is_new_database(tables: i64, version: i64, application: i64) -> (r: bool)
    ensures
        r == (tables == 0 && version == 0 && application == 0),
{
    tables == 0 && version == 0 && application == 0
}

} // verus!
