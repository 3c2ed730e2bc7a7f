//! File records: what one MFT slot says about a file or folder.
use vstd::prelude::*;
use crate::bytes::{is_zero_from, number_at, slice, sliced, u16_at, u32_at, u64_at, zero_from};
use crate::mft::{attributes, attributes_of, file_time, list_references, references_of, resident, resident_value, slices, spells_file, tick_time};
use crate::path::{copy_units, same_units};
use crate::text::{decode_utf16, encode_utf16, utf16_text, utf16_units};
use crate::time::Timestamp;

verus! {

/// A name of a file: the folder that holds it and the name there, in UTF-16.
#[derive(Debug, PartialEq, Eq)]
pub struct Link {
    pub parent: u64,
    pub name: Vec<u16>,
}

/// What a `Link` holds.
pub struct LinkView {
    pub parent: u64,
    pub name: Seq<u16>,
}

impl View for Link {
    type V = LinkView;

    open spec fn view(&self) -> LinkView {
        LinkView { parent: self.parent, name: self.name@ }
    }
}

impl Clone for Link {
    fn clone(&self) -> (r: Link)
        ensures
            r@ == self@,
    {
        Link { parent: self.parent, name: copy_units(&self.name) }
    }
}

/// What is known of a file or folder. A record that extends another names it in `base`.
#[derive(Debug)]
pub struct Record {
    pub reference: u64,
    pub base: u64,
    pub base_seen: bool,
    pub directory: bool,
    pub reparse: bool,
    pub links: Vec<Link>,
    pub bytes: Option<u64>,
    pub modified: Option<Timestamp>,
    pub accessed: Option<Timestamp>,
    pub expected: Vec<u64>,
    pub incomplete: bool,
}

/// What a `Record` holds.
#[verifier::ext_equal]
pub struct RecordView {
    pub reference: u64,
    pub base: u64,
    pub base_seen: bool,
    pub directory: bool,
    pub reparse: bool,
    pub links: Seq<LinkView>,
    pub bytes: Option<u64>,
    pub modified: Option<Timestamp>,
    pub accessed: Option<Timestamp>,
    pub expected: Seq<u64>,
    pub incomplete: bool,
}

/// What a list of links holds.
pub open spec fn link_views(links: Seq<Link>) -> Seq<LinkView> {
    Seq::new(links.len(), |i: int| links[i]@)
}

impl View for Record {
    type V = RecordView;

    open spec fn view(&self) -> RecordView {
        RecordView {
            reference: self.reference,
            base: self.base,
            base_seen: self.base_seen,
            directory: self.directory,
            reparse: self.reparse,
            links: link_views(self.links@),
            bytes: self.bytes,
            modified: self.modified,
            accessed: self.accessed,
            expected: self.expected@,
            incomplete: self.incomplete,
        }
    }
}

impl RecordView {
    /// A record of which nothing is known.
    pub open spec fn blank() -> RecordView {
        RecordView {
            reference: 0,
            base: 0,
            base_seen: false,
            directory: false,
            reparse: false,
            links: seq![],
            bytes: None,
            modified: None,
            accessed: None,
            expected: seq![],
            incomplete: false,
        }
    }
}

impl Default for Record {
    fn default() -> (r: Record)
        ensures
            r@ == RecordView::blank(),
    {
        let r = Record {
            reference: 0,
            base: 0,
            base_seen: false,
            directory: false,
            reparse: false,
            links: Vec::new(),
            bytes: None,
            modified: None,
            accessed: None,
            expected: Vec::new(),
            incomplete: false,
        };
        assert(r@ =~= RecordView::blank());
        r
    }
}

/// Whether `links` holds a link already.
pub fn has_link(links: &Vec<Link>, link: &Link) -> (r: bool)
    ensures
        r == link_views(links@).contains(link@),
{
    let mut i: usize = 0;
    while i < links.len()
        invariant
            i <= links@.len(),
            forall|j: int| 0 <= j < i ==> #[trigger] link_views(links@)[j] != link@,
        decreases links@.len() - i,
    {
        if links[i].parent == link.parent && same_units(&links[i].name, &link.name) {
            assert(link_views(links@)[i as int] == link@);
            return true;
        }
        i += 1;
    }
    false
}

/// `links` with one more link, unless it stands there already.
pub open spec fn with_link(links: Seq<LinkView>, link: LinkView) -> Seq<LinkView> {
    if links.contains(link) {
        links
    } else {
        links.push(link)
    }
}

/// Adds a link unless it stands there already.
pub fn add_link(links: &mut Vec<Link>, link: Link)
    ensures
        link_views(final(links)@) == with_link(link_views(old(links)@), link@),
{
    if !has_link(links, &link) {
        let ghost before = link_views(links@);
        links.push(link);
        assert(link_views(links@) =~= before.push(link@));
    }
}

/// What a standard information attribute adds: the dates, and whether the file
/// is a reparse point.
pub open spec fn with_standard_information(rec: RecordView, attr: Seq<u8>) -> Result<
    RecordView,
    Seq<char>,
> {
    match resident_value(attr) {
        Err(e) => Err(e),
        Ok(value) => match (number_at(value, 8, 8), number_at(value, 24, 8), number_at(value, 32, 4)) {
            (Err(e), _, _) => Err(e),
            (_, Err(e), _) => Err(e),
            (_, _, Err(e)) => Err(e),
            (Ok(modified), Ok(accessed), Ok(flags)) => Ok(
                RecordView {
                    modified: tick_time(modified as u64),
                    accessed: tick_time(accessed as u64),
                    reparse: rec.reparse || (flags as u32) & 0x400 != 0,
                    ..rec
                },
            ),
        },
    }
}

/// What an attribute list adds: the records that are to extend this one, or a
/// mark where the list lies outside the record.
pub open spec fn with_attribute_list(rec: RecordView, attr: Seq<u8>) -> Result<
    RecordView,
    Seq<char>,
> {
    if attr[8] != 0 {
        Ok(RecordView { incomplete: true, ..rec })
    } else {
        match resident_value(attr) {
            Err(e) => Err(e),
            Ok(value) => match references_of(value) {
                Err(e) => Err(e),
                Ok(expected) => Ok(RecordView { expected, ..rec }),
            },
        }
    }
}

/// The UTF-16 units that bytes spell.
pub open spec fn units_of(raw: Seq<u8>) -> Seq<u16> {
    Seq::new(raw.len() / 2, |i: int| (raw[2 * i] + 256 * raw[2 * i + 1]) as u16)
}

/// Whether a unit may not stand in a name: NUL, slash, backslash or colon.
pub open spec fn forbidden_unit(c: u16) -> bool {
    c == 0 || c == 47 || c == 92 || c == 58
}

/// Whether a name is one or two dots.
pub open spec fn only_dots(name: Seq<u16>) -> bool {
    name == seq![46u16] || name == seq![46u16, 46u16]
}

/// A name as it is kept: as it is on Windows, and elsewhere as text, where a
/// surrogate without its partner becomes the replacement character.
pub open spec fn link_name(name: Seq<u16>, windows: bool) -> Seq<u16> {
    if windows {
        name
    } else {
        encode_utf16(decode_utf16(name))
    }
}

/// What a file name attribute adds: one more link. Short DOS aliases and the
/// dots of the root folder add nothing.
pub open spec fn with_file_name(
    rec: RecordView,
    attr: Seq<u8>,
    number: u64,
    windows: bool,
) -> Result<RecordView, Seq<char>> {
    match resident_value(attr) {
        Err(e) => Err(e),
        Ok(value) => match sliced(value, 0, 66) {
            Err(e) => Err(e),
            Ok(header) => if header[65] == 2 {
                Ok(rec)
            } else if header[65] > 3 {
                Err("Unsupported filename namespace"@)
            } else {
                match sliced(value, 66, header[64] * 2) {
                    Err(e) => Err(e),
                    Ok(raw) => {
                        let name = units_of(raw);
                        if name.len() == 0 || exists|i: int|
                            0 <= i < name.len() && forbidden_unit(#[trigger] name[i]) {
                            Err("Invalid filename component"@)
                        } else if only_dots(link_name(name, windows)) {
                            if number != 5 {
                                Err("Invalid directory name"@)
                            } else {
                                Ok(rec)
                            }
                        } else {
                            match number_at(value, 0, 8) {
                                Err(e) => Err(e),
                                Ok(parent) => Ok(
                                    RecordView {
                                        links: with_link(
                                            rec.links,
                                            LinkView {
                                                parent: parent as u64,
                                                name: link_name(name, windows),
                                            },
                                        ),
                                        ..rec
                                    },
                                ),
                            }
                        }
                    },
                }
            },
        },
    }
}

/// What an unnamed data attribute adds: the size of the file, from the value
/// itself or from the first piece of a nonresident stream.
pub open spec fn with_data(rec: RecordView, attr: Seq<u8>) -> Result<RecordView, Seq<char>> {
    if attr[8] == 0 {
        match resident_value(attr) {
            Err(e) => Err(e),
            Ok(value) => Ok(RecordView { bytes: Some(value.len() as u64), ..rec }),
        }
    } else {
        match number_at(attr, 16, 8) {
            Err(e) => Err(e),
            Ok(first) => if first != 0 {
                Ok(rec)
            } else {
                match number_at(attr, 48, 8) {
                    Err(e) => Err(e),
                    Ok(size) => Ok(RecordView { bytes: Some(size as u64), ..rec }),
                }
            },
        }
    }
}

/// What one attribute adds to a record.
pub open spec fn with_attribute(
    rec: RecordView,
    attr: Seq<u8>,
    number: u64,
    windows: bool,
) -> Result<RecordView, Seq<char>> {
    match number_at(attr, 0, 4) {
        Err(e) => Err(e),
        Ok(kind) => if kind == 0x10 {
            with_standard_information(rec, attr)
        } else if kind == 0x20 {
            with_attribute_list(rec, attr)
        } else if kind == 0x30 {
            with_file_name(rec, attr, number, windows)
        } else if kind == 0x80 && attr[9] == 0 {
            with_data(rec, attr)
        } else if kind == 0xc0 {
            Ok(RecordView { reparse: true, ..rec })
        } else {
            Ok(rec)
        },
    }
}

/// What attributes add to a record, one after the other.
pub open spec fn with_attributes(
    rec: RecordView,
    attrs: Seq<Seq<u8>>,
    number: u64,
    windows: bool,
) -> Result<RecordView, Seq<char>>
    decreases attrs.len(),
{
    if attrs.len() == 0 {
        Ok(rec)
    } else {
        match with_attribute(rec, attrs[0], number, windows) {
            Err(e) => Err(e),
            Ok(next) => with_attributes(next, attrs.drop_first(), number, windows),
        }
    }
}

/// What slot `number` of the MFT says: nothing when it is unused.
pub open spec fn record_of(data: Seq<u8>, number: u64, windows: bool) -> Result<
    Option<RecordView>,
    Seq<char>,
> {
    match sliced(data, 0, 4) {
        Err(e) => Err(e),
        Ok(signature) => if !spells_file(signature) {
            if zero_from(data, 0) {
                Ok(None)
            } else {
                Err("Invalid MFT record signature"@)
            }
        } else {
            match number_at(data, 22, 2) {
                Err(e) => Err(e),
                Ok(flags) => if (flags as u16) & 1 == 0 {
                    Ok(None)
                } else {
                    match (number_at(data, 32, 8), number_at(data, 16, 2), attributes_of(data)) {
                        (Err(e), _, _) => Err(e),
                        (_, Err(e), _) => Err(e),
                        (_, _, Err(e)) => Err(e),
                        (Ok(base), Ok(sequence), Ok(attrs)) => match with_attributes(
                            RecordView {
                                reference: number | ((sequence as u64) << 48),
                                base: base as u64,
                                base_seen: base == 0,
                                directory: (flags as u16) & 2 != 0,
                                ..RecordView::blank()
                            },
                            attrs,
                            number,
                            windows,
                        ) {
                            Err(e) => Err(e),
                            Ok(rec) => Ok(Some(rec)),
                        },
                    }
                },
            }
        },
    }
}

fn read_standard_information(rec: &mut Record, attr: &[u8]) -> (r: Result<(), String>)
    requires
        attr@.len() >= 24,
    ensures
        match r {
            Ok(_) => with_standard_information(old(rec)@, attr@) == Ok::<RecordView, Seq<char>>(
                final(rec)@,
            ),
            Err(e) => with_standard_information(old(rec)@, attr@) == Err::<RecordView, Seq<char>>(
                e@,
            ),
        },
{
    let value = resident(attr)?;
    let modified: u64 = u64_at(value, 8)?;
    let accessed: u64 = u64_at(value, 24)?;
    let flags: u32 = u32_at(value, 32)?;
    rec.modified = file_time(modified);
    rec.accessed = file_time(accessed);
    rec.reparse = rec.reparse || flags & 0x400 != 0;
    Ok(())
}

fn read_attribute_list(rec: &mut Record, attr: &[u8]) -> (r: Result<(), String>)
    requires
        attr@.len() >= 24,
    ensures
        match r {
            Ok(_) => with_attribute_list(old(rec)@, attr@) == Ok::<RecordView, Seq<char>>(
                final(rec)@,
            ),
            Err(e) => with_attribute_list(old(rec)@, attr@) == Err::<RecordView, Seq<char>>(e@),
        },
{
    if attr[8] == 0 {
        let value = resident(attr)?;
        rec.expected = list_references(value)?;
    } else {
        rec.incomplete = true;
    }
    Ok(())
}

/// Reads the UTF-16 units that bytes spell.
fn read_units(raw: &[u8]) -> (r: Vec<u16>)
    ensures
        r@ == units_of(raw@),
{
    let mut r: Vec<u16> = Vec::new();
    let mut i: usize = 0;
    let count: usize = raw.len() / 2;
    while i < count
        invariant
            i <= count,
            count == raw@.len() / 2,
            raw@.len() <= usize::MAX,
            r@ == units_of(raw@).take(i as int),
        decreases count - i,
    {
        r.push(raw[2 * i] as u16 + 256 * raw[2 * i + 1] as u16);
        i += 1;
        assert(r@ =~= units_of(raw@).take(i as int));
    }
    assert(r@ =~= units_of(raw@));
    r
}

/// Whether a name is empty or holds a unit that may not stand in it.
fn is_bad_name(name: &Vec<u16>) -> (r: bool)
    ensures
        r == (name@.len() == 0 || exists|i: int|
            0 <= i < name@.len() && forbidden_unit(#[trigger] name@[i])),
{
    let mut i: usize = 0;
    while i < name.len()
        invariant
            i <= name@.len(),
            forall|j: int| 0 <= j < i ==> !forbidden_unit(#[trigger] name@[j]),
        decreases name@.len() - i,
    {
        let c: u16 = name[i];
        if c == 0 || c == 47 || c == 92 || c == 58 {
            assert(forbidden_unit(name@[i as int]));
            return true;
        }
        i += 1;
    }
    name.len() == 0
}

/// Whether a name is one or two dots.
fn is_only_dots(name: &Vec<u16>) -> (r: bool)
    ensures
        r == only_dots(name@),
{
    let r: bool = (name.len() == 1 && name[0] == 46) || (name.len() == 2 && name[0] == 46 && name[1]
        == 46);
    proof {
        if r {
            assert(name@ =~= seq![46u16] || name@ =~= seq![46u16, 46u16]);
        }
    }
    r
}

fn read_file_name(rec: &mut Record, attr: &[u8], number: u64, windows: bool) -> (r: Result<
    (),
    String,
>)
    requires
        attr@.len() >= 24,
    ensures
        match r {
            Ok(_) => with_file_name(old(rec)@, attr@, number, windows) == Ok::<RecordView, Seq<char>>(
                final(rec)@,
            ),
            Err(e) => with_file_name(old(rec)@, attr@, number, windows) == Err::<RecordView, Seq<char>>(e@),
        },
{
    let value = resident(attr)?;
    let header = slice(value, 0, 66)?;
    if header[65] == 2 {
        return Ok(());
    }
    if header[65] > 3 {
        return Err("Unsupported filename namespace".to_string());
    }
    let raw = slice(value, 66, header[64] as usize * 2)?;
    let name = read_units(raw);
    if is_bad_name(&name) {
        return Err("Invalid filename component".to_string());
    }
    let name: Vec<u16> = if windows {
        name
    } else {
        utf16_units(utf16_text(&name).as_str())
    };
    if is_only_dots(&name) {
        if number != 5 {
            return Err("Invalid directory name".to_string());
        }
        return Ok(());
    }
    let parent: u64 = u64_at(value, 0)?;
    add_link(&mut rec.links, Link { parent, name });
    Ok(())
}

fn read_data(rec: &mut Record, attr: &[u8]) -> (r: Result<(), String>)
    requires
        attr@.len() >= 24,
    ensures
        match r {
            Ok(_) => with_data(old(rec)@, attr@) == Ok::<RecordView, Seq<char>>(final(rec)@),
            Err(e) => with_data(old(rec)@, attr@) == Err::<RecordView, Seq<char>>(e@),
        },
{
    if attr[8] == 0 {
        let value = resident(attr)?;
        rec.bytes = Some(value.len() as u64);
    } else {
        let first: u64 = u64_at(attr, 16)?;
        if first == 0 {
            rec.bytes = Some(u64_at(attr, 48)?);
        }
    }
    Ok(())
}

fn read_attribute(rec: &mut Record, attr: &[u8], number: u64, windows: bool) -> (r: Result<
    (),
    String,
>)
    requires
        attr@.len() >= 24,
    ensures
        match r {
            Ok(_) => with_attribute(old(rec)@, attr@, number, windows) == Ok::<RecordView, Seq<char>>(
                final(rec)@,
            ),
            Err(e) => with_attribute(old(rec)@, attr@, number, windows) == Err::<RecordView, Seq<char>>(e@),
        },
{
    let kind: u32 = u32_at(attr, 0)?;
    if kind == 0x10 {
        read_standard_information(rec, attr)
    } else if kind == 0x20 {
        read_attribute_list(rec, attr)
    } else if kind == 0x30 {
        read_file_name(rec, attr, number, windows)
    } else if kind == 0x80 && attr[9] == 0 {
        read_data(rec, attr)
    } else if kind == 0xc0 {
        rec.reparse = true;
        Ok(())
    } else {
        Ok(())
    }
}

/// Reads slot `number` of the MFT; an unused slot holds no record. Off Windows
/// names are text.
pub fn parse_record(data: &[u8], number: u64, windows: bool) -> (r: Result<
    Option<Record>,
    String,
>)
    ensures
        match r {
            Ok(None) => record_of(data@, number, windows) == Ok::<Option<RecordView>, Seq<char>>(None),
            Ok(Some(rec)) => record_of(data@, number, windows) == Ok::<Option<RecordView>, Seq<char>>(
                Some(rec@),
            ),
            Err(e) => record_of(data@, number, windows) == Err::<Option<RecordView>, Seq<char>>(e@),
        },
{
    let signature = slice(data, 0, 4)?;
    if signature[0] != 0x46 || signature[1] != 0x49 || signature[2] != 0x4C || signature[3] != 0x45 {
        return if is_zero_from(data, 0) {
            Ok(None)
        } else {
            Err("Invalid MFT record signature".to_string())
        };
    }
    let flags: u16 = u16_at(data, 22)?;
    if flags & 1 == 0 {
        return Ok(None);
    }
    let base: u64 = u64_at(data, 32)?;
    let sequence: u16 = u16_at(data, 16)?;
    let attrs = attributes(data)?;
    let mut rec = Record::default();
    rec.reference = number | ((sequence as u64) << 48);
    rec.base = base;
    rec.base_seen = base == 0;
    rec.directory = flags & 2 != 0;
    let ghost all = slices(attrs@);
    let ghost whole = with_attributes(rec@, all, number, windows);
    assert(rec@ =~= (RecordView {
        reference: number | ((sequence as u64) << 48),
        base,
        base_seen: base == 0,
        directory: flags & 2 != 0,
        ..RecordView::blank()
    }));
    let mut i: usize = 0;
    assert(all.skip(0) =~= all);
    while i < attrs.len()
        invariant
            i <= attrs@.len(),
            all == slices(attrs@),
            forall|k: int| 0 <= k < attrs@.len() ==> (#[trigger] attrs@[k])@.len() >= 24,
            whole == with_attributes(rec@, all.skip(i as int), number, windows),
            record_of(data@, number, windows) == (match whole {
                Err(e) => Err::<Option<RecordView>, Seq<char>>(e),
                Ok(rec) => Ok(Some(rec)),
            }),
        decreases attrs@.len() - i,
    {
        assert(all.skip(i as int)[0] == attrs@[i as int]@);
        assert(all.skip(i as int).drop_first() =~= all.skip(i + 1));
        read_attribute(&mut rec, attrs[i], number, windows)?;
        i += 1;
    }
    Ok(Some(rec))
}

} // verus!
