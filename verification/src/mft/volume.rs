//! Where an NTFS volume keeps its records, and how they are read and checked.
use vstd::prelude::*;
use crate::bytes::{copy_bytes, is_power_of_two, is_zero_from, number_at, power_of_two, slice, sliced, u16_at, u32_at, u64_at, zero_from};
use crate::cache::snapshot::MFT_ENGINE;
use crate::mft::{attributes, attributes_of, fixup, fixup_result, list_references, references_of, resident, resident_value, runs, runs_of, slices, spells_file, Run};
use crate::mft::index::{slot, Index, IndexView, ID_MASK};
use crate::mft::record::{parse_record, record_of};
use crate::path::FolderPath;
use crate::scan::{Progress, ProgressView};
use crate::text::{decimal, digits, join3};

verus! {

/// How many bytes of records are read at once.
pub const CHUNK: u64 = 4_194_304;

/// The sizes of a volume: its sectors, clusters and records, its record file,
/// and the volume itself, in bytes.
#[derive(Clone, Copy, Debug, PartialEq, Eq, Structural)]
pub struct Geometry {
    pub sector: u64,
    pub cluster: u64,
    pub record: usize,
    pub length: u64,
    pub volume_bytes: u64,
}

/// Whether sizes are such that records can be read.
pub open spec fn sizes_fit(sector: int, cluster: int, record: int, length: int) -> bool {
    &&& 512 <= sector <= 65536
    &&& power_of_two(sector)
    &&& sector <= cluster <= 2 * 1024 * 1024
    &&& power_of_two(cluster)
    &&& 512 <= record <= 65536
    &&& power_of_two(record)
    &&& length > 0
    &&& length % record == 0
}

/// The sizes in a volume's answer, or why they cannot be used.
pub open spec fn geometry_of(data: Seq<u8>) -> Result<Geometry, Seq<char>> {
    match (number_at(data, 100, 2), number_at(data, 102, 2)) {
        (Err(e), _) => Err(e),
        (Ok(major), _) if major != 3 => Err("지원하지 않는 NTFS 버전"@),
        (_, Err(e)) => Err(e),
        (_, Ok(minor)) => if minor > 1 {
            Err("지원하지 않는 NTFS 버전"@)
        } else {
            match (
                number_at(data, 40, 4),
                number_at(data, 44, 4),
                number_at(data, 48, 4),
                number_at(data, 56, 8),
                number_at(data, 8, 8),
            ) {
                (Ok(sector), Ok(cluster), Ok(record), Ok(length), Ok(sectors)) => if !sizes_fit(
                    sector,
                    cluster,
                    record,
                    length,
                ) {
                    Err("지원하지 않는 NTFS 볼륨 구조"@)
                } else if sectors * sector > u64::MAX {
                    Err("Volume size overflow"@)
                } else {
                    Ok(
                        Geometry {
                            sector: sector as u64,
                            cluster: cluster as u64,
                            record: record as usize,
                            length: length as u64,
                            volume_bytes: (sectors * sector) as u64,
                        },
                    )
                },
                _ => Err("NTFS record is truncated"@),
            }
        },
    }
}

/// The sizes in a volume's answer.
pub fn decode_geometry(data: &[u8]) -> (r: Result<Geometry, String>)
    ensures
        match r {
            Ok(g) => geometry_of(data@) == Ok::<Geometry, Seq<char>>(g) && sizes_fit(
                g.sector as int,
                g.cluster as int,
                g.record as int,
                g.length as int,
            ),
            Err(e) => geometry_of(data@) == Err::<Geometry, Seq<char>>(e@),
        },
{
    let major: u16 = u16_at(data, 100)?;
    if major != 3 {
        return Err("지원하지 않는 NTFS 버전".to_string());
    }
    let minor: u16 = u16_at(data, 102)?;
    if minor > 1 {
        return Err("지원하지 않는 NTFS 버전".to_string());
    }
    let sector: u64 = u32_at(data, 40)? as u64;
    let cluster: u64 = u32_at(data, 44)? as u64;
    let record: usize = u32_at(data, 48)? as usize;
    let length: u64 = u64_at(data, 56)?;
    if sector < 512 || sector > 65536 || !is_power_of_two(sector) || cluster < sector || cluster > 2
        * 1024 * 1024 || !is_power_of_two(cluster) || record < 512 || record > 65536
        || !is_power_of_two(record as u64) || length == 0 || length % record as u64 != 0 {
        return Err("지원하지 않는 NTFS 볼륨 구조".to_string());
    }
    let sectors: u64 = u64_at(data, 8)?;
    let volume_bytes: u64 = match sectors.checked_mul(sector) {
        Some(n) => n,
        None => {
            return Err("Volume size overflow".to_string());
        },
    };
    Ok(Geometry { sector, cluster, record, length, volume_bytes })
}

/// The record in a volume's answer to the question for `reference`, or why it
/// is not the record that was asked for.
pub open spec fn answered_record(out: Seq<u8>, reference: u64, size: int) -> Result<
    Seq<u8>,
    Seq<char>,
> {
    match (number_at(out, 0, 8), number_at(out, 8, 4)) {
        (Err(e), _) => Err(e),
        (Ok(found), _) if slot(found as u64) != slot(reference) => Err(
            "요청한 MFT 확장 레코드가 없거나 변경되었습니다"@,
        ),
        (_, Err(e)) => Err(e),
        (_, Ok(length)) => if length != size {
            Err("요청한 MFT 확장 레코드가 없거나 변경되었습니다"@)
        } else {
            match sliced(out, 12, size) {
                Err(e) => Err(e),
                Ok(raw) => {
                    let (fixed, data) = fixup_result(raw, true);
                    match fixed {
                        Err(e) => Err(e),
                        Ok(_) => if reference >> 48 == 0 {
                            Ok(data)
                        } else {
                            match number_at(data, 16, 2) {
                                Err(e) => Err(e),
                                Ok(sequence) => if sequence != reference >> 48 {
                                    Err("MFT 레코드 시퀀스 변경 감지"@)
                                } else {
                                    Ok(data)
                                },
                            }
                        },
                    }
                },
            }
        },
    }
}

/// The record in a volume's answer. A volume may answer with a lower record
/// that is in use; that substitution is never accepted.
pub fn accept_record(out: &[u8], reference: u64, size: usize) -> (r: Result<Vec<u8>, String>)
    ensures
        match r {
            Ok(data) => answered_record(out@, reference, size as int) == Ok::<Seq<u8>, Seq<char>>(
                data@,
            ),
            Err(e) => answered_record(out@, reference, size as int) == Err::<Seq<u8>, Seq<char>>(
                e@,
            ),
        },
{
    let found: u64 = u64_at(out, 0)?;
    if found & ID_MASK != reference & ID_MASK {
        return Err("요청한 MFT 확장 레코드가 없거나 변경되었습니다".to_string());
    }
    let length: u32 = u32_at(out, 8)?;
    if length as usize != size {
        return Err("요청한 MFT 확장 레코드가 없거나 변경되었습니다".to_string());
    }
    let raw = slice(out, 12, size)?;
    let mut data: Vec<u8> = copy_bytes(raw);
    fixup(data.as_mut_slice(), true)?;
    if reference >> 48 != 0 {
        let sequence: u16 = u16_at(data.as_slice(), 16)?;
        if sequence as u64 != reference >> 48 {
            return Err("MFT 레코드 시퀀스 변경 감지".to_string());
        }
    }
    Ok(data)
}

/// A piece of a volume to read: whole sectors, and which of their bytes count.
#[derive(Clone, Copy, Debug, PartialEq, Eq, Structural)]
pub struct Piece {
    pub offset: u64,
    pub length: u64,
    pub prefix: u64,
    pub count: u64,
}

/// Whether a run holds the cluster `vcn` of a stream.
pub open spec fn run_holds(run: Run, vcn: int) -> bool {
    run.vcn <= vcn < run.vcn + run.clusters
}

/// The first run, from `from` on, that holds a cluster.
pub open spec fn run_of(mapping: Seq<Run>, vcn: int, from: int) -> Option<Run>
    decreases mapping.len() - from,
{
    if from >= mapping.len() {
        None
    } else if run_holds(mapping[from], vcn) {
        Some(mapping[from])
    } else {
        run_of(mapping, vcn, from + 1)
    }
}

/// Where byte `logical` of a stream stands on the volume.
pub open spec fn physical_position(run: Run, cluster: int, logical: int) -> int {
    run.lcn->0 * cluster + (logical - run.vcn * cluster)
}

/// The smallest multiple of `sector` that is no less than `n`.
pub open spec fn rounded_up(n: int, sector: int) -> int {
    (n + sector - 1) / sector * sector
}

/// The piece that holds the bytes of a stream from `logical` on, up to `left`
/// of them, or why it cannot be read.
pub open spec fn piece_at(mapping: Seq<Run>, g: Geometry, logical: int, left: int) -> Result<
    Piece,
    Seq<char>,
> {
    let cluster = g.cluster as int;
    if logical > u64::MAX {
        Err("Read offset overflow"@)
    } else {
        match run_of(mapping, logical / cluster, 0) {
            None => Err("MFT 데이터 구간이 누락되었습니다"@),
            Some(run) => if run.lcn is None {
                Err("Sparse MFT/attribute-list streams are unsupported"@)
            } else if run.clusters * cluster > u64::MAX {
                Err("Run length overflow"@)
            } else if physical_position(run, cluster, logical) > u64::MAX {
                Err("LCN overflow"@)
            } else {
                let available = run.clusters * cluster - (logical - run.vcn * cluster);
                let count = if left < available {
                    left
                } else {
                    available
                };
                let physical = physical_position(run, cluster, logical);
                let prefix = physical % (g.sector as int);
                let length = rounded_up(prefix + count, g.sector as int);
                if physical - prefix + length > g.volume_bytes {
                    Err("MFT run exceeds volume bounds"@)
                } else {
                    Ok(
                        Piece {
                            offset: (physical - prefix) as u64,
                            length: length as u64,
                            prefix: prefix as u64,
                            count: count as u64,
                        },
                    )
                }
            },
        }
    }
}

fn find_run(mapping: &Vec<Run>, vcn: u64) -> (r: Option<Run>)
    ensures
        r == run_of(mapping@, vcn as int, 0),
        r matches Some(run) ==> run_holds(run, vcn as int),
{
    let mut i: usize = 0;
    while i < mapping.len()
        invariant
            i <= mapping@.len(),
            run_of(mapping@, vcn as int, i as int) == run_of(mapping@, vcn as int, 0),
        decreases mapping@.len() - i,
    {
        let run: Run = mapping[i];
        if vcn >= run.vcn && vcn - run.vcn < run.clusters {
            return Some(run);
        }
        i += 1;
    }
    None
}

/// A byte whose cluster a run holds lies between the ends of the run.
pub proof fn bytes_lie_in_their_run(run: Run, cluster: int, logical: int)
    requires
        cluster > 0,
        0 <= logical,
        run_holds(run, logical / cluster),
    ensures
        run.vcn * cluster <= logical < run.vcn * cluster + run.clusters * cluster,
        run.lcn matches Some(lcn) ==> lcn * cluster >= 0,
{
    let (v, n, q) = (run.vcn as int, run.clusters as int, logical / cluster);
    assert(v * cluster <= q * cluster <= logical < (q + 1) * cluster <= (v + n) * cluster
        && (v + n) * cluster == v * cluster + n * cluster) by (nonlinear_arith)
        requires
            cluster > 0,
            0 <= logical,
            q == logical / cluster,
            v <= q < v + n,
    ;
    if let Some(lcn) = run.lcn {
        assert(lcn * cluster >= 0) by (nonlinear_arith)
            requires
                cluster > 0,
                lcn >= 0,
        ;
    }
}

/// What whole sectors do to a number: the remainder is smaller than a sector
/// and no larger than the number.
pub proof fn sectors_bound(n: int, sector: int)
    requires
        sector > 0,
        n >= 0,
    ensures
        0 <= n % sector < sector,
        n % sector <= n,
        0 <= n / sector * sector <= n < n / sector * sector + sector,
{
    assert(0 <= n % sector < sector && n % sector <= n && 0 <= n / sector * sector <= n < n / sector
        * sector + sector) by (nonlinear_arith)
        requires
            sector > 0,
            n >= 0,
    ;
}

/// A stream of a volume that is being read: `wanted` bytes from `start` on.
pub struct Stream {
    pub start: u64,
    pub wanted: u64,
    pub bytes: Vec<u8>,
}

impl Stream {
    /// A stream of which nothing has been read.
    pub fn new(start: u64, wanted: u64) -> (r: Stream)
        ensures
            r.start == start,
            r.wanted == wanted,
            r.bytes@ == Seq::<u8>::empty(),
    {
        Stream { start, wanted, bytes: Vec::new() }
    }

    /// The next piece to read; `None` once the stream is complete.
    pub fn next(&self, mapping: &Vec<Run>, g: &Geometry) -> (r: Result<Option<Piece>, String>)
        requires
            g.sector > 0,
            g.cluster > 0,
        ensures
            match r {
                Ok(None) => self.bytes@.len() >= self.wanted,
                Ok(Some(piece)) => self.bytes@.len() < self.wanted && piece_at(
                    mapping@,
                    *g,
                    self.start + self.bytes@.len(),
                    self.wanted - self.bytes@.len(),
                ) == Ok::<Piece, Seq<char>>(piece) && 0 < piece.count && piece.prefix + piece.count
                    <= piece.length,
                Err(e) => self.bytes@.len() < self.wanted && piece_at(
                    mapping@,
                    *g,
                    self.start + self.bytes@.len(),
                    self.wanted - self.bytes@.len(),
                ) == Err::<Piece, Seq<char>>(e@),
            },
    {
        let done: u64 = self.bytes.len() as u64;
        if done >= self.wanted {
            return Ok(None);
        }
        let left: u64 = self.wanted - done;
        let logical: u64 = match self.start.checked_add(done) {
            Some(n) => n,
            None => {
                return Err("Read offset overflow".to_string());
            },
        };
        let vcn: u64 = logical / g.cluster;
        let run = match find_run(mapping, vcn) {
            Some(run) => run,
            None => {
                return Err("MFT 데이터 구간이 누락되었습니다".to_string());
            },
        };
        let lcn: u64 = match run.lcn {
            Some(n) => n,
            None => {
                return Err("Sparse MFT/attribute-list streams are unsupported".to_string());
            },
        };
        proof {
            bytes_lie_in_their_run(run, g.cluster as int, logical as int);
        }
        let delta: u64 = logical - run.vcn * g.cluster;
        let whole: u64 = match run.clusters.checked_mul(g.cluster) {
            Some(n) => n,
            None => {
                return Err("Run length overflow".to_string());
            },
        };
        let available: u64 = whole - delta;
        let count: u64 = if left < available {
            left
        } else {
            available
        };
        let first: u64 = match lcn.checked_mul(g.cluster) {
            Some(n) => n,
            None => {
                return Err("LCN overflow".to_string());
            },
        };
        let physical: u64 = match first.checked_add(delta) {
            Some(n) => n,
            None => {
                return Err("LCN overflow".to_string());
            },
        };
        let prefix: u64 = physical % g.sector;
        proof {
            sectors_bound(physical as int, g.sector as int);
        }
        let wide: u128 = prefix as u128 + count as u128 + (g.sector as u128 - 1);
        let sectors: u128 = wide / g.sector as u128;
        proof {
            sectors_bound(wide as int, g.sector as int);
        }
        let length: u128 = sectors * g.sector as u128;
        let end: u128 = (physical - prefix) as u128 + length;
        if end > g.volume_bytes as u128 {
            return Err("MFT run exceeds volume bounds".to_string());
        }
        Ok(
            Some(
                Piece { offset: physical - prefix, length: length as u64, prefix, count },
            ),
        )
    }

    /// Takes in the bytes of a piece.
    pub fn take(&mut self, piece: Piece, sectors: &[u8])
        requires
            piece.prefix + piece.count <= sectors@.len(),
        ensures
            final(self).start == old(self).start,
            final(self).wanted == old(self).wanted,
            final(self).bytes@ == old(self).bytes@ + sectors@.subrange(
                piece.prefix as int,
                piece.prefix + piece.count,
            ),
    {
        let ghost before = self.bytes@;
        assert(sectors.len() == sectors@.len());
        let from: usize = piece.prefix as usize;
        let to: usize = from + piece.count as usize;
        let mut i: usize = from;
        assert(before + sectors@.subrange(from as int, from as int) =~= before);
        while i < to
            invariant
                from <= i <= to <= sectors@.len(),
                self.bytes@ == before + sectors@.subrange(from as int, i as int),
                self.start == old(self).start,
                self.wanted == old(self).wanted,
            decreases to - i,
        {
            self.bytes.push(sectors[i]);
            i += 1;
            assert(self.bytes@ =~= before + sectors@.subrange(from as int, i as int));
        }
    }
}

/// The bytes that a piece adds are those of the volume at the places of the
/// stream's next bytes, within one run and within the volume.
pub proof fn pieces_hold_the_stream(
    mapping: Seq<Run>,
    g: Geometry,
    logical: int,
    left: int,
    disk: Seq<u8>,
    k: int,
)
    requires
        g.sector > 0,
        g.cluster > 0,
        0 <= logical,
        0 < left,
        disk.len() == g.volume_bytes,
        piece_at(mapping, g, logical, left) is Ok,
        0 <= k < piece_at(mapping, g, logical, left)->Ok_0.count,
    ensures
        ({
            let piece = piece_at(mapping, g, logical, left)->Ok_0;
            let sectors = disk.subrange(piece.offset as int, piece.offset + piece.length);
            let run = run_of(mapping, logical / (g.cluster as int), 0)->0;
            let place = physical_position(run, g.cluster as int, logical + k);
            &&& piece.count <= left
            &&& 0 <= place < disk.len()
            &&& sectors[piece.prefix + k] == disk[place]
        }),
{
    let piece = piece_at(mapping, g, logical, left)->Ok_0;
    let c = g.cluster as int;
    let s = g.sector as int;
    let run = run_of(mapping, logical / c, 0)->0;
    run_of_holds(mapping, logical / c, 0);
    bytes_lie_in_their_run(run, c, logical);
    let physical = physical_position(run, c, logical);
    let prefix = physical % s;
    let available = run.clusters * c - (logical - run.vcn * c);
    let count = if left < available {
        left
    } else {
        available
    };
    let w = prefix + count + s - 1;
    sectors_bound(physical, s);
    sectors_bound(w, s);
    assert(piece.length == w / s * s);
    assert(piece.length >= prefix + count);
}

proof fn run_of_holds(mapping: Seq<Run>, vcn: int, from: int)
    ensures
        run_of(mapping, vcn, from) matches Some(run) ==> run_holds(run, vcn),
    decreases mapping.len() - from,
{
    if from < mapping.len() && !run_holds(mapping[from], vcn) {
        run_of_holds(mapping, vcn, from + 1);
    }
}

/// Where the list of a record's parts is found: in the record itself, or in
/// runs of the volume.
#[derive(Debug)]
pub enum ListSource {
    Resident(Vec<u64>),
    Nonresident(Vec<Run>, u64),
}

/// What a `ListSource` holds.
pub enum ListSourceView {
    Resident(Seq<u64>),
    Nonresident(Seq<Run>, u64),
}

impl View for ListSource {
    type V = ListSourceView;

    open spec fn view(&self) -> ListSourceView {
        match self {
            ListSource::Resident(refs) => ListSourceView::Resident(refs@),
            ListSource::Nonresident(runs, len) => ListSourceView::Nonresident(runs@, *len),
        }
    }
}

/// The largest attribute list that is read.
pub const MAX_LIST: u64 = 16_777_216;

/// Where an attribute list is found.
pub open spec fn list_source(attr: Seq<u8>) -> Result<ListSourceView, Seq<char>> {
    if attr[8] == 0 {
        match resident_value(attr) {
            Err(e) => Err(e),
            Ok(value) => match references_of(value) {
                Err(e) => Err(e),
                Ok(refs) => Ok(ListSourceView::Resident(refs)),
            },
        }
    } else {
        match (number_at(attr, 48, 8), number_at(attr, 16, 8), runs_of(attr)) {
            (Err(e), _, _) => Err(e),
            (Ok(len), _, _) if len > MAX_LIST => Err("MFT 속성 목록이 지원 범위를 벗어났습니다"@),
            (_, Err(e), _) => Err(e),
            (_, Ok(vcn), _) if vcn != 0 => Err("MFT 속성 목록이 지원 범위를 벗어났습니다"@),
            (_, _, Err(e)) => Err(e),
            (Ok(len), _, Ok(runs)) => Ok(ListSourceView::Nonresident(runs, len as u64)),
        }
    }
}

/// The first attribute list at or after attribute `from`, and its position.
pub open spec fn next_list(attrs: Seq<Seq<u8>>, from: int) -> Result<
    Option<(int, ListSourceView)>,
    Seq<char>,
>
    decreases attrs.len() - from,
{
    if from >= attrs.len() {
        Ok(None)
    } else {
        match number_at(attrs[from], 0, 4) {
            Err(e) => Err(e),
            Ok(kind) => if kind != 0x20 {
                next_list(attrs, from + 1)
            } else {
                match list_source(attrs[from]) {
                    Err(e) => Err(e),
                    Ok(source) => Ok(Some((from, source))),
                }
            },
        }
    }
}

/// The first attribute list of a record at or after attribute `from`, and its position.
pub open spec fn record_list(record: Seq<u8>, from: int) -> Result<
    Option<(int, ListSourceView)>,
    Seq<char>,
> {
    match attributes_of(record) {
        Err(e) => Err(e),
        Ok(attrs) => next_list(attrs, from),
    }
}

fn read_list_source(attr: &[u8]) -> (r: Result<ListSource, String>)
    requires
        attr@.len() > 8,
    ensures
        match r {
            Ok(s) => list_source(attr@) == Ok::<ListSourceView, Seq<char>>(s@),
            Err(e) => list_source(attr@) == Err::<ListSourceView, Seq<char>>(e@),
        },
{
    if attr[8] == 0 {
        let value = resident(attr)?;
        let refs = list_references(value)?;
        Ok(ListSource::Resident(refs))
    } else {
        let len: u64 = u64_at(attr, 48)?;
        if len > MAX_LIST {
            return Err("MFT 속성 목록이 지원 범위를 벗어났습니다".to_string());
        }
        let vcn: u64 = u64_at(attr, 16)?;
        if vcn != 0 {
            return Err("MFT 속성 목록이 지원 범위를 벗어났습니다".to_string());
        }
        let runs = runs(attr)?;
        Ok(ListSource::Nonresident(runs, len))
    }
}

/// The first attribute list of a record at or after attribute `from`, and its
/// position. A record may hold several: each one is to be read, and the last one
/// counts.
pub fn attribute_list(record: &[u8], from: usize) -> (r: Result<
    Option<(usize, ListSource)>,
    String,
>)
    ensures
        match r {
            Ok(None) => record_list(record@, from as int) == Ok::<
                Option<(int, ListSourceView)>,
                Seq<char>,
            >(None),
            Ok(Some((at, source))) => from <= at < usize::MAX && record_list(record@, from as int)
                == Ok::<Option<(int, ListSourceView)>, Seq<char>>(Some((at as int, source@))),
            Err(e) => record_list(record@, from as int) == Err::<
                Option<(int, ListSourceView)>,
                Seq<char>,
            >(e@),
        },
{
    let attrs = attributes(record)?;
    let ghost views = slices(attrs@);
    let mut i: usize = from;
    assert(attrs.len() == attrs@.len());
    while i < attrs.len()
        invariant
            from <= i,
            views == slices(attrs@),
            attrs@.len() <= usize::MAX,
            forall|k: int| 0 <= k < attrs@.len() ==> (#[trigger] attrs@[k])@.len() >= 24,
            record_list(record@, from as int) == next_list(views, i as int),
        decreases attrs@.len() - i,
    {
        let attr = attrs[i];
        assert(views[i as int] == attr@);
        let kind: u32 = u32_at(attr, 0)?;
        if kind == 0x20 {
            let source = read_list_source(attr)?;
            return Ok(Some((i, source)));
        }
        i += 1;
    }
    Ok(None)
}

/// How many extension records are followed.
pub const MAX_EXTENSIONS: usize = 4096;

/// References to other records than the first.
pub open spec fn other_records(references: Seq<u64>, n: int) -> Seq<u64>
    decreases n,
{
    if n <= 0 {
        seq![]
    } else if slot(references[n - 1]) == 0 {
        other_records(references, n - 1)
    } else {
        other_records(references, n - 1).push(references[n - 1])
    }
}

/// The extension records that an attribute list names.
pub fn extension_references(references: &Vec<u64>) -> (r: Result<Vec<u64>, String>)
    ensures
        match r {
            Ok(refs) => references@.len() <= MAX_EXTENSIONS && refs@ == other_records(
                references@,
                references@.len() as int,
            ),
            Err(e) => references@.len() > MAX_EXTENSIONS && e@
                == "MFT 확장 레코드가 너무 많습니다"@,
        },
{
    if references.len() > MAX_EXTENSIONS {
        return Err("MFT 확장 레코드가 너무 많습니다".to_string());
    }
    let mut refs: Vec<u64> = Vec::new();
    let mut i: usize = 0;
    while i < references.len()
        invariant
            i <= references@.len(),
            refs@ == other_records(references@, i as int),
        decreases references@.len() - i,
    {
        if references[i] & ID_MASK != 0 {
            refs.push(references[i]);
        }
        i += 1;
    }
    Ok(refs)
}

/// Whether an extension record belongs to the first record.
pub open spec fn extension_fault(base: Seq<u8>, record: Seq<u8>) -> Option<Seq<char>> {
    match (number_at(base, 16, 2), number_at(record, 32, 8)) {
        (Err(e), _) => Some(e),
        (_, Err(e)) => Some(e),
        (Ok(sequence), Ok(owner)) => if owner != (sequence as u64) << 48 {
            Some("MFT 확장 레코드의 부모가 변경되었습니다"@)
        } else {
            None
        },
    }
}

/// Checks that an extension record belongs to the first record.
pub fn check_extension(base: &[u8], record: &[u8]) -> (r: Result<(), String>)
    ensures
        match r {
            Ok(_) => extension_fault(base@, record@) is None,
            Err(e) => extension_fault(base@, record@) == Some(e@),
        },
{
    let sequence: u16 = u16_at(base, 16)?;
    let owner: u64 = u64_at(record, 32)?;
    if owner != (sequence as u64) << 48 {
        return Err("MFT 확장 레코드의 부모가 변경되었습니다".to_string());
    }
    Ok(())
}

/// The runs of the record file, and its length in bytes.
pub struct Extents {
    pub runs: Seq<Run>,
    pub size: u64,
}

/// What an attribute adds to the extents of the record file.
pub open spec fn with_extent(extents: Extents, attr: Seq<u8>) -> Result<Extents, Seq<char>> {
    match number_at(attr, 0, 4) {
        Err(e) => Err(e),
        Ok(kind) => if kind != 0x80 || attr[9] != 0 {
            Ok(extents)
        } else if attr[8] != 1 {
            Err("Unsupported MFT DATA attribute"@)
        } else {
            match (number_at(attr, 12, 2), number_at(attr, 16, 8), number_at(attr, 48, 8), runs_of(attr)) {
                (Err(e), _, _, _) => Err(e),
                (Ok(flags), _, _, _) if flags != 0 => Err("Unsupported MFT DATA attribute"@),
                (_, Err(e), _, _) => Err(e),
                (_, Ok(vcn), Err(e), _) if vcn == 0 => Err(e),
                (_, _, _, Err(e)) => Err(e),
                (_, Ok(vcn), size, Ok(runs)) => Ok(
                    Extents {
                        runs: extents.runs + runs,
                        size: if vcn == 0 {
                            size->Ok_0 as u64
                        } else {
                            extents.size
                        },
                    },
                ),
            }
        },
    }
}

/// The extents after the first `n` attributes.
pub open spec fn with_extents(extents: Extents, attrs: Seq<Seq<u8>>, n: int) -> Result<
    Extents,
    Seq<char>,
>
    decreases n,
{
    if n <= 0 {
        Ok(extents)
    } else {
        match with_extents(extents, attrs, n - 1) {
            Err(e) => Err(e),
            Ok(before) => with_extent(before, attrs[n - 1]),
        }
    }
}

/// The extents after the first `n` records.
pub open spec fn extents_of(records: Seq<Seq<u8>>, n: int) -> Result<Extents, Seq<char>>
    decreases n,
{
    if n <= 0 {
        Ok(Extents { runs: seq![], size: 0 })
    } else {
        match extents_of(records, n - 1) {
            Err(e) => Err(e),
            Ok(before) => match attributes_of(records[n - 1]) {
                Err(e) => Err(e),
                Ok(attrs) => with_extents(before, attrs, attrs.len() as int),
            },
        }
    }
}

proof fn extent_errors_stay(extents: Extents, attrs: Seq<Seq<u8>>, m: int, n: int)
    requires
        m <= n,
        with_extents(extents, attrs, m) is Err,
    ensures
        with_extents(extents, attrs, n) == with_extents(extents, attrs, m),
    decreases n,
{
    if 0 < n && m < n {
        extent_errors_stay(extents, attrs, m, n - 1);
    }
}

proof fn record_errors_stay(records: Seq<Seq<u8>>, m: int, n: int)
    requires
        m <= n,
        extents_of(records, m) is Err,
    ensures
        extents_of(records, n) == extents_of(records, m),
    decreases n,
{
    if 0 < n && m < n {
        record_errors_stay(records, m, n - 1);
    }
}

fn add_extent(runs_so_far: Vec<Run>, size: u64, attr: &[u8]) -> (r: Result<(Vec<Run>, u64), String>)
    requires
        attr@.len() >= 24,
    ensures
        ({
            let before = Extents { runs: runs_so_far@, size };
            match r {
                Ok((runs, size)) => with_extent(before, attr@) == Ok::<Extents, Seq<char>>(
                    Extents { runs: runs@, size },
                ),
                Err(e) => with_extent(before, attr@) == Err::<Extents, Seq<char>>(e@),
            }
        }),
{
    let mut all = runs_so_far;
    let mut size: u64 = size;
    let kind: u32 = u32_at(attr, 0)?;
    if kind != 0x80 || attr[9] != 0 {
        return Ok((all, size));
    }
    if attr[8] != 1 {
        return Err("Unsupported MFT DATA attribute".to_string());
    }
    let flags: u16 = u16_at(attr, 12)?;
    if flags != 0 {
        return Err("Unsupported MFT DATA attribute".to_string());
    }
    let vcn: u64 = u64_at(attr, 16)?;
    if vcn == 0 {
        size = u64_at(attr, 48)?;
    }
    let more = runs(attr)?;
    let ghost before = all@;
    let mut i: usize = 0;
    assert(before + more@.take(0) =~= before);
    while i < more.len()
        invariant
            i <= more@.len(),
            all@ == before + more@.take(i as int),
        decreases more@.len() - i,
    {
        all.push(more[i]);
        i += 1;
        assert(all@ =~= before + more@.take(i as int));
    }
    assert(more@.take(i as int) =~= more@);
    Ok((all, size))
}

/// What a list of byte sequences holds.
pub open spec fn byte_lists(records: Seq<Vec<u8>>) -> Seq<Seq<u8>> {
    Seq::new(records.len(), |i: int| records[i]@)
}

fn collect_extents(records: &Vec<Vec<u8>>) -> (r: Result<(Vec<Run>, u64), String>)
    ensures
        match r {
            Ok((runs, size)) => extents_of(byte_lists(records@), records@.len() as int) == Ok::<
                Extents,
                Seq<char>,
            >(Extents { runs: runs@, size }),
            Err(e) => extents_of(byte_lists(records@), records@.len() as int) == Err::<
                Extents,
                Seq<char>,
            >(e@),
        },
{
    let ghost lists = byte_lists(records@);
    let mut all: Vec<Run> = Vec::new();
    let mut size: u64 = 0;
    let mut i: usize = 0;
    assert(all@ =~= seq![]);
    while i < records.len()
        invariant
            i <= records@.len(),
            lists == byte_lists(records@),
            extents_of(lists, i as int) == Ok::<Extents, Seq<char>>(Extents { runs: all@, size }),
        decreases records@.len() - i,
    {
        assert(lists[i as int] == records@[i as int]@);
        assert(records.len() == records@.len());
        let ghost before = Extents { runs: all@, size };
        let attrs = match attributes(records[i].as_slice()) {
            Ok(attrs) => attrs,
            Err(e) => {
                proof {
                    record_errors_stay(lists, i + 1, lists.len() as int);
                }
                return Err(e);
            },
        };
        let ghost views = slices(attrs@);
        let mut j: usize = 0;
        while j < attrs.len()
            invariant
                j <= attrs@.len(),
                i < records@.len(),
                lists == byte_lists(records@),
                views == slices(attrs@),
                attributes_of(lists[i as int]) == Ok::<Seq<Seq<u8>>, Seq<char>>(views),
                extents_of(lists, i as int) == Ok::<Extents, Seq<char>>(before),
                forall|k: int| 0 <= k < attrs@.len() ==> (#[trigger] attrs@[k])@.len() >= 24,
                with_extents(before, views, j as int) == Ok::<Extents, Seq<char>>(
                    Extents { runs: all@, size },
                ),
            decreases attrs@.len() - j,
        {
            let attr = attrs[j];
            assert(views[j as int] == attr@);
            assert(attrs.len() == attrs@.len());
            match add_extent(all, size, attr) {
                Err(e) => {
                    proof {
                        extent_errors_stay(before, views, j + 1, views.len() as int);
                        record_errors_stay(lists, i + 1, lists.len() as int);
                    }
                    return Err(e);
                },
                Ok((runs, n)) => {
                    all = runs;
                    size = n;
                },
            }
            j += 1;
        }
        i += 1;
    }
    Ok((all, size))
}

/// `runs`, sorted, with one more at its place.
pub open spec fn with_run(runs: Seq<Run>, run: Run) -> Seq<Run>
    decreases runs.len(),
{
    if runs.len() == 0 || runs.last().vcn <= run.vcn {
        runs.push(run)
    } else {
        with_run(runs.drop_last(), run).push(runs.last())
    }
}

/// Runs by the cluster of the stream that they start with.
pub open spec fn sorted_runs(runs: Seq<Run>) -> Seq<Run>
    decreases runs.len(),
{
    if runs.len() == 0 {
        seq![]
    } else {
        with_run(sorted_runs(runs.drop_last()), runs.last())
    }
}

fn insert_run(runs: &mut Vec<Run>, run: Run)
    ensures
        final(runs)@ == with_run(old(runs)@, run),
{
    let ghost before = runs@;
    let mut at: usize = runs.len();
    assert(before.take(at as int) =~= before);
    assert(with_run(before, run) + before.skip(at as int) =~= with_run(before, run));
    while at > 0 && runs[at - 1].vcn > run.vcn
        invariant
            at <= before.len(),
            runs@ == before,
            with_run(before, run) == with_run(before.take(at as int), run) + before.skip(
                at as int,
            ),
        decreases at,
    {
        let ghost part = before.take(at as int);
        at = at - 1;
        proof {
            assert(part.drop_last() =~= before.take(at as int));
            assert(part.last() == before[at as int]);
            assert(with_run(before.take(at as int), run).push(part.last()) + before.skip(at + 1)
                =~= with_run(before.take(at as int), run) + before.skip(at as int));
        }
    }
    runs.insert(at, run);
    proof {
        let part = before.take(at as int);
        assert(with_run(part, run) == part.push(run));
        assert(runs@ =~= part.push(run) + before.skip(at as int));
    }
}

fn sort_runs(runs: &Vec<Run>) -> (r: Vec<Run>)
    ensures
        r@ == sorted_runs(runs@),
{
    let mut r: Vec<Run> = Vec::new();
    let mut i: usize = 0;
    assert(runs@.take(0) =~= seq![]);
    while i < runs.len()
        invariant
            i <= runs@.len(),
            r@ == sorted_runs(runs@.take(i as int)),
        decreases runs@.len() - i,
    {
        insert_run(&mut r, runs[i]);
        i += 1;
        assert(runs@.take(i as int).drop_last() =~= runs@.take(i - 1));
    }
    assert(runs@.take(i as int) =~= runs@);
    r
}

/// The cluster after the first `n` runs, where they follow each other without a
/// gap and all stand on the volume.
pub open spec fn run_end(runs: Seq<Run>, n: int) -> Result<int, Seq<char>>
    decreases n,
{
    if n <= 0 {
        Ok(0)
    } else {
        match run_end(runs, n - 1) {
            Err(e) => Err(e),
            Ok(end) => if runs[n - 1].vcn != end || runs[n - 1].lcn is None {
                Err("MFT runlist contains gaps/overlap/sparse regions"@)
            } else if end + runs[n - 1].clusters > u64::MAX {
                Err("MFT length overflow"@)
            } else {
                Ok(end + runs[n - 1].clusters)
            },
        }
    }
}

proof fn run_errors_stay(runs: Seq<Run>, m: int, n: int)
    requires
        m <= n,
        run_end(runs, m) is Err,
    ensures
        run_end(runs, n) == run_end(runs, m),
    decreases n,
{
    if 0 < n && m < n {
        run_errors_stay(runs, m, n - 1);
    }
}

/// The runs of the record file, in order, or why they do not hold all of it.
pub open spec fn mapping_of(records: Seq<Seq<u8>>, g: Geometry) -> Result<Seq<Run>, Seq<char>> {
    match extents_of(records, records.len() as int) {
        Err(e) => Err(e),
        Ok(extents) => {
            let runs = sorted_runs(extents.runs);
            match run_end(runs, runs.len() as int) {
                Err(e) => Err(e),
                Ok(end) => if extents.size < g.length || (end * g.cluster <= u64::MAX && end
                    * g.cluster < g.length) || end * g.cluster > u64::MAX {
                    Err("MFT 크기가 스캔 준비 중 변경되었습니다"@)
                } else {
                    Ok(runs)
                },
            }
        },
    }
}

/// The runs of the record file, from its first record and its extensions.
pub fn mft_mapping(records: &Vec<Vec<u8>>, g: &Geometry) -> (r: Result<Vec<Run>, String>)
    ensures
        match r {
            Ok(runs) => mapping_of(byte_lists(records@), *g) == Ok::<Seq<Run>, Seq<char>>(runs@),
            Err(e) => mapping_of(byte_lists(records@), *g) == Err::<Seq<Run>, Seq<char>>(e@),
        },
{
    let (all, size) = collect_extents(records)?;
    let runs = sort_runs(&all);
    let mut end: u64 = 0;
    let mut i: usize = 0;
    while i < runs.len()
        invariant
            i <= runs@.len(),
            run_end(runs@, i as int) == Ok::<int, Seq<char>>(end as int),
            extents_of(byte_lists(records@), records@.len() as int) == Ok::<Extents, Seq<char>>(
                Extents { runs: all@, size },
            ),
            runs@ == sorted_runs(all@),
            byte_lists(records@).len() == records@.len(),
        decreases runs@.len() - i,
    {
        let run: Run = runs[i];
        assert(runs.len() == runs@.len());
        if run.vcn != end || run.lcn.is_none() {
            proof {
                run_errors_stay(runs@, i + 1, runs@.len() as int);
            }
            return Err("MFT runlist contains gaps/overlap/sparse regions".to_string());
        }
        match end.checked_add(run.clusters) {
            Some(n) => {
                end = n;
            },
            None => {
                proof {
                    run_errors_stay(runs@, i + 1, runs@.len() as int);
                }
                return Err("MFT length overflow".to_string());
            },
        }
        i += 1;
    }
    let covered: bool = match end.checked_mul(g.cluster) {
        Some(bytes) => bytes >= g.length,
        None => false,
    };
    if size < g.length || !covered {
        return Err("MFT 크기가 스캔 준비 중 변경되었습니다".to_string());
    }
    Ok(runs)
}

/// The runs of an accepted record file follow each other from its first cluster
/// on, and hold at least the announced length.
pub proof fn mappings_are_contiguous(records: Seq<Seq<u8>>, g: Geometry, i: int)
    requires
        mapping_of(records, g) is Ok,
        0 <= i < mapping_of(records, g)->Ok_0.len(),
    ensures
        ({
            let runs = mapping_of(records, g)->Ok_0;
            &&& runs[i].lcn is Some
            &&& runs[i].vcn == if i == 0 {
                0
            } else {
                runs[i - 1].vcn + runs[i - 1].clusters
            }
        }),
{
    let runs = mapping_of(records, g)->Ok_0;
    let n = runs.len() as int;
    if run_end(runs, i + 1) is Err {
        run_errors_stay(runs, i + 1, n);
    }
    if run_end(runs, i) is Err {
        run_errors_stay(runs, i, n);
    }
    if i > 0 && run_end(runs, i - 1) is Err {
        run_errors_stay(runs, i - 1, n);
    }
}

/// Whether bytes start with the mark of a record.
pub open spec fn starts_like_a_record(data: Seq<u8>) -> bool {
    data.len() >= 4 && spells_file(data)
}

/// The index after one slot of the record file was read, or why reading stops.
pub open spec fn ingested(ix: IndexView, data: Seq<u8>, number: u64) -> (
    Result<(), Seq<char>>,
    IndexView,
) {
    if starts_like_a_record(data) {
        match number_at(data, 22, 2) {
            Err(e) => (Err(e), ix),
            Ok(flags) => if (flags as u16) & 1 == 0 {
                (Ok(()), ix)
            } else {
                let (fixed, whole) = fixup_result(data, false);
                match fixed {
                    Err(e) => (Err(e), ix),
                    Ok(_) => match record_of(whole, number, true) {
                        Err(e) => (Err(e), ix),
                        Ok(None) => (Ok(()), ix),
                        Ok(Some(rec)) => (
                            if ix.records.contains_key(rec.key())
                                && ix.records[rec.key()].conflicts_with(rec) {
                                Err("Conflicting DATA lengths (MFT changed during scan)"@)
                            } else {
                                Ok(())
                            },
                            ix.inserted(rec),
                        ),
                    },
                }
            },
        }
    } else if zero_from(data, 0) {
        (Ok(()), ix)
    } else {
        (
            Err("MFT 레코드 "@ + digits(number as int) + "의 서명을 확인할 수 없습니다"@),
            ix,
        )
    }
}

/// Reads one slot of the record file into the index. A slot that is not in use
/// is not looked into.
pub fn ingest(index: &mut Index, data: &mut [u8], number: u64) -> (r: Result<(), String>)
    requires
        old(index).valid(),
    ensures
        final(index).valid(),
        final(index)@ == ingested(old(index)@, old(data)@, number).1,
        match r {
            Ok(_) => ingested(old(index)@, old(data)@, number).0 == Ok::<(), Seq<char>>(()),
            Err(e) => ingested(old(index)@, old(data)@, number).0 == Err::<(), Seq<char>>(e@),
        },
{
    let marked: bool = data.len() >= 4 && data[0] == 0x46 && data[1] == 0x49 && data[2] == 0x4C
        && data[3] == 0x45;
    if marked {
        let flags: u16 = u16_at(data, 22)?;
        if flags & 1 == 0 {
            return Ok(());
        }
        fixup(data, false)?;
        match parse_record(data, number, true)? {
            None => Ok(()),
            Some(rec) => index.insert(rec),
        }
    } else if is_zero_from(data, 0) {
        Ok(())
    } else {
        Err(
            join3("MFT 레코드 ", decimal(number).as_str(), "의 서명을 확인할 수 없습니다"),
        )
    }
}

/// Reads the `i`th slot of the chunk that starts at `offset` into the index, and
/// says how many records were read.
pub fn take_slot(
    index: &mut Index,
    p: &mut Progress,
    g: &Geometry,
    offset: u64,
    i: usize,
    data: &mut [u8],
) -> (r: Result<(), String>)
    requires
        old(index).valid(),
        g.record > 0,
        offset + i < u64::MAX,
    ensures
        final(index).valid(),
        final(index)@ == ingested(
            old(index)@,
            old(data)@,
            slot_at(*g, offset as int, i as int) as u64,
        ).1,
        r is Ok ==> final(p)@.records == slot_at(*g, offset as int, i as int) + 1,
        ({
            let number = (offset as int / g.record as int + i) as u64;
            &&& final(index)@ == ingested(old(index)@, old(data)@, number).1
            &&& match r {
                Ok(_) => ingested(old(index)@, old(data)@, number).0 == Ok::<(), Seq<char>>(())
                    && final(p)@ == (ProgressView { records: (number + 1) as u64, ..old(p)@ }),
                Err(e) => ingested(old(index)@, old(data)@, number).0 == Err::<(), Seq<char>>(e@)
                    && final(p)@ == old(p)@,
            }
        }),
{
    let size: u64 = g.record as u64;
    assert(0 <= offset as int / size as int <= offset) by (nonlinear_arith)
        requires
            size > 0,
    ;
    let number: u64 = offset / size + i as u64;
    ingest(index, data, number)?;
    p.records = number + 1;
    Ok(())
}

/// The progress of a volume scan at its start.
pub fn volume_progress(g: &Geometry, root: &FolderPath) -> (r: Progress)
    requires
        g.record > 0,
    ensures
        r@ == (ProgressView {
            total_records: (g.length as int / g.record as int) as u64,
            current: root@,
            ..ProgressView::starting(
                MFT_ENGINE@,
                "NTFS MFT 직접 읽기 · 시스템 메타파일 제외 · 하드 링크는 경로별 집계"@,
            )
        }),
{
    Progress {
        engine: MFT_ENGINE,
        note: "NTFS MFT 직접 읽기 · 시스템 메타파일 제외 · 하드 링크는 경로별 집계".to_string(),
        total_records: g.length / g.record as u64,
        current: root.clone(),
        ..Default::default()
    }
}

/// How many bytes of a record file of some length are read next.
pub open spec fn next_chunk(length: int, offset: int) -> int {
    if offset >= length {
        0
    } else if length - offset < CHUNK {
        length - offset
    } else {
        CHUNK as int
    }
}

/// The number of the `i`th slot of the chunk that starts at `offset`.
pub open spec fn slot_at(g: Geometry, offset: int, i: int) -> int {
    offset / g.record as int + i
}

/// How many bytes of records are read next.
pub fn chunk_length(g: &Geometry, offset: u64) -> (r: u64)
    ensures
        r == next_chunk(g.length as int, offset as int),
        r == if offset >= g.length {
            0
        } else if g.length - offset < CHUNK {
            g.length - offset
        } else {
            CHUNK as int
        },
{
    if offset >= g.length {
        0
    } else if g.length - offset < CHUNK {
        g.length - offset
    } else {
        CHUNK
    }
}

/// Checks after a scan that the record file is where it was; a scan of one that
/// moved or grew is not shown.
pub fn check_unchanged(
    before: &Geometry,
    after: &Geometry,
    mapping: &Vec<Run>,
    mapping_after: &Vec<Run>,
) -> (r: Result<(), String>)
    ensures
        match r {
            Ok(_) => before.length == after.length && mapping@ == mapping_after@,
            Err(e) => !(before.length == after.length && mapping@ == mapping_after@) && e@
                == "스캔 중 MFT 크기 또는 저장 구간이 변경되었습니다"@,
        },
{
    let mut same: bool = before.length == after.length && mapping.len() == mapping_after.len();
    let mut i: usize = 0;
    while same && i < mapping.len()
        invariant
            i <= mapping@.len(),
            same ==> before.length == after.length && mapping@.len() == mapping_after@.len(),
            same ==> forall|k: int| 0 <= k < i ==> mapping@[k] == mapping_after@[k],
            !same ==> !(before.length == after.length && mapping@ == mapping_after@),
        decreases mapping@.len() - i,
    {
        if mapping[i] != mapping_after[i] {
            same = false;
        }
        i += 1;
    }
    if !same {
        return Err("스캔 중 MFT 크기 또는 저장 구간이 변경되었습니다".to_string());
    }
    assert(mapping@ =~= mapping_after@);
    Ok(())
}

} // verus!
