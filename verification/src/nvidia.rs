//! Locating the Display Connector Block in a video BIOS image and decoding
//! its entries.

use crate::merge::{
    displays_holding, distinct_positions, has_position, lemma_merge_uses_each_entry_once,
    merge_dcb_entries, merge_spec,
};
use crate::util::{
    display_views, read_uint_16_le, read_uint_32_le, u16_le_at, u32_le_at, Display, DisplayView,
    NVErrors,
};
use vstd::prelude::*;

verus! {

/// The four bytes that mark a DCB header, as a little-endian word.
pub const DCB_SIGNATURE: u32 = 0x4edcbdcb;

/// The first DCB version that is too new to decode.
pub const DCB_MAX_VERSION: u8 = 0x42;

/// The oldest DCB version that is decoded.
pub const DCB_MIN_VERSION: u8 = 0x30;

/// Where the image keeps the 16-bit pointer to the DCB header.
pub const DCB_HEADER_ADDR: usize = 0x36;

pub const DCB_SIZE_OFFSET: usize = 0x1;

pub const DCB_ENTRY_COUNT_OFFSET: usize = 0x2;

pub const DCB_ENTRY_SIZE_OFFSET: usize = 0x3;

pub const DCB_SIGNATURE_OFFSET: usize = 0x6;

/// Connector type of a VGA output.
pub const DCB_CONN_CRT: u32 = 0;

/// Connector type of a composite output.
pub const DCB_CONN_TV: u32 = 1;

/// Connector type of a DVI or HDMI link.
pub const DCB_CONN_TMDS: u32 = 2;

/// Connector type of a laptop panel.
pub const DCB_CONN_LVDS: u32 = 3;

pub const DCB_CONN_SDI: u32 = 5;

pub const DCB_CONN_DP: u32 = 6;

/// Connector type of a slot that ends the entry list.
pub const DCB_CONN_EOL: u32 = 0xe;

/// Connector type of a slot that holds no connector.
pub const DCB_CONN_SKIP: u32 = 0xf;

/// One row of the DCB table, split into its bit fields.
#[derive(Debug, Clone, Copy, PartialEq, Eq, Structural)]
pub struct DcbEntry {
    pub entry_type: u32,
    pub edid_port: u32,
    pub head_bitmask: u32,
    pub con: u32,
    pub bus: u32,
    pub loc: u32,
    pub bdr: u32,
    pub bbdr: u32,
    pub output_resources: u32,
    pub entry_is_virtual: bool,
    pub reserved: u32,
    /// The row's position in the table, which identifies the entry.
    pub entry: u8,
}

/// The header of a DCB table that passed validation.
#[derive(Debug, Clone, Copy, PartialEq, Eq, Structural)]
pub struct DcbHeader {
    pub table_offset: usize,
    pub version: u8,
    pub table_size: usize,
    pub entry_count: u8,
    pub entry_size: u8,
}

/// The printable name of a connector type, as a sequence of characters.
pub open spec fn dcb_type_name(dcb_type: u32) -> Seq<char> {
    if dcb_type == DCB_CONN_CRT {
        "CRT"@
    } else if dcb_type == DCB_CONN_TV {
        "TV"@
    } else if dcb_type == DCB_CONN_TMDS {
        "TMDS"@
    } else if dcb_type == DCB_CONN_LVDS {
        "LVDS"@
    } else if dcb_type == DCB_CONN_SDI {
        "SDI"@
    } else if dcb_type == DCB_CONN_DP {
        "DisplayPort"@
    } else {
        "Unknown"@
    }
}

/// Names a connector type.
pub fn dcb_type_to_string(dcb_type: u32) -> (name: &'static str)
    ensures
        name@ == dcb_type_name(dcb_type),
{
    match dcb_type {
        0 => "CRT",
        1 => "TV",
        2 => "TMDS",
        3 => "LVDS",
        5 => "SDI",
        6 => "DisplayPort",
        _ => "Unknown",
    }
}

/// The entry that the 32-bit word `conn` encodes at table position `number`.
pub open spec fn decode_entry(conn: u32, number: u8) -> DcbEntry {
    DcbEntry {
        entry_type: conn & 0xf,
        edid_port: (conn >> 4) & 0xf,
        head_bitmask: (conn >> 8) & 0xf,
        con: (conn >> 12) & 0xf,
        bus: (conn >> 16) & 0xf,
        loc: (conn >> 20) & 0x3,
        bdr: (conn >> 22) & 0x1,
        bbdr: (conn >> 23) & 0x1,
        output_resources: (conn >> 24) & 0xf,
        entry_is_virtual: ((conn >> 28) & 0x1) == 1,
        reserved: (conn >> 28) & 0x7,
        entry: number,
    }
}

/// Splits a table word into its fields.
pub fn parse_dcb_entry(conn: u32, number: u8) -> (entry: DcbEntry)
    ensures
        entry == decode_entry(conn, number),
{
    DcbEntry {
        entry_type: conn & 0xf,
        edid_port: (conn >> 4) & 0xf,
        head_bitmask: (conn >> 8) & 0xf,
        con: (conn >> 12) & 0xf,
        bus: (conn >> 16) & 0xf,
        loc: (conn >> 20) & 0x3,
        bdr: (conn >> 22) & 0x1,
        bbdr: (conn >> 23) & 0x1,
        output_resources: (conn >> 24) & 0xf,
        entry_is_virtual: ((conn >> 28) & 0x1) == 1,
        reserved: (conn >> 28) & 0x7,
        entry: number,
    }
}

/// Every field of a decoded entry fits the width of its bit field.
pub proof fn lemma_decode_entry_bounds(conn: u32, number: u8)
    ensures
        decode_entry(conn, number).entry_type < 16,
        decode_entry(conn, number).edid_port < 16,
        decode_entry(conn, number).head_bitmask < 16,
        decode_entry(conn, number).con < 16,
        decode_entry(conn, number).bus < 16,
        decode_entry(conn, number).loc < 4,
        decode_entry(conn, number).bdr < 2,
        decode_entry(conn, number).bbdr < 2,
        decode_entry(conn, number).output_resources < 16,
        decode_entry(conn, number).reserved < 8,
        decode_entry(conn, number).entry_is_virtual == (decode_entry(conn, number).reserved % 2
            == 1),
{
    assert(conn & 0xf < 16 && (conn >> 4) & 0xf < 16 && (conn >> 8) & 0xf < 16 && (conn >> 12)
        & 0xf < 16 && (conn >> 16) & 0xf < 16 && (conn >> 20) & 0x3 < 4 && (conn >> 22) & 0x1 < 2
        && (conn >> 23) & 0x1 < 2 && (conn >> 24) & 0xf < 16 && (conn >> 28) & 0x7 < 8) by (bit_vector);
    assert((((conn >> 28) & 0x1) == 1) == (((conn >> 28) & 0x7) % 2 == 1)) by (bit_vector);
}

/// Whether `len` bytes starting at `at` lie inside the image.
pub open spec fn in_image(rom: Seq<u8>, at: int, len: int) -> bool {
    0 <= at && at + len <= rom.len()
}

/// Whether a header at `offset` with version byte `version` is acceptable:
/// the version is supported and the signature is present in the image.
pub open spec fn signature_valid(version: u8, rom: Seq<u8>, offset: int) -> bool {
    &&& DCB_MIN_VERSION <= version < DCB_MAX_VERSION
    &&& in_image(rom, offset + DCB_SIGNATURE_OFFSET, 4)
    &&& u32_le_at(rom, offset + DCB_SIGNATURE_OFFSET) == DCB_SIGNATURE
}

fn fits(rom: &Vec<u8>, at: usize, len: usize) -> (ok: bool)
    ensures
        ok == in_image(rom@, at as int, len as int),
        ok ==> at + len <= usize::MAX,
{
    at <= rom.len() && len <= rom.len() - at
}

/// Checks the version byte and the signature of a DCB header at `offset`.
pub fn parse_signature(version: u8, rom: &Vec<u8>, offset: usize) -> (ok: bool)
    ensures
        ok == signature_valid(version, rom@, offset as int),
{
    if version >= DCB_MAX_VERSION {
        return false;
    }
    if version < DCB_MIN_VERSION {
        return false;
    }
    if !fits(rom, offset, DCB_SIGNATURE_OFFSET + 4) {
        return false;
    }
    read_uint_32_le(rom, offset + DCB_SIGNATURE_OFFSET) == DCB_SIGNATURE
}

/// The offset of the DCB header that the image points to.
pub open spec fn header_offset(rom: Seq<u8>) -> int {
    u16_le_at(rom, DCB_HEADER_ADDR as int)
}

/// What locating the DCB header in `rom` yields.
///
/// The pointer and the version byte must lie inside the image. A version out
/// of range is reported before anything else about the header is looked at.
pub open spec fn locate_spec(rom: Seq<u8>) -> Result<DcbHeader, NVErrors> {
    let offset = header_offset(rom);
    if !in_image(rom, DCB_HEADER_ADDR as int, 2) || !in_image(rom, offset, 1) {
        Err(NVErrors::Corrupted)
    } else if rom[offset] >= DCB_MAX_VERSION {
        Err(NVErrors::UnsupportedVersion)
    } else if rom[offset] < DCB_MIN_VERSION {
        Err(NVErrors::IncompatibleHardware)
    } else if !signature_valid(rom[offset], rom, offset) {
        Err(NVErrors::Corrupted)
    } else {
        Ok(
            DcbHeader {
                table_offset: offset as usize,
                version: rom[offset],
                table_size: rom[offset + DCB_SIZE_OFFSET] as usize,
                entry_count: rom[offset + DCB_ENTRY_COUNT_OFFSET],
                entry_size: rom[offset + DCB_ENTRY_SIZE_OFFSET],
            },
        )
    }
}

/// Finds and validates the DCB header of a firmware image.
pub fn locate_dcb(rom: &Vec<u8>) -> (res: Result<DcbHeader, NVErrors>)
    ensures
        res == locate_spec(rom@),
{
    if !fits(rom, DCB_HEADER_ADDR, 2) {
        return Err(NVErrors::Corrupted);
    }
    let offset: usize = read_uint_16_le(rom, DCB_HEADER_ADDR) as usize;
    if !fits(rom, offset, 1) {
        return Err(NVErrors::Corrupted);
    }
    let version: u8 = rom[offset];
    if version >= DCB_MAX_VERSION {
        return Err(NVErrors::UnsupportedVersion);
    }
    if version < DCB_MIN_VERSION {
        return Err(NVErrors::IncompatibleHardware);
    }
    if !parse_signature(version, rom, offset) {
        return Err(NVErrors::Corrupted);
    }
    Ok(
        DcbHeader {
            table_offset: offset,
            version,
            table_size: rom[offset + DCB_SIZE_OFFSET] as usize,
            entry_count: rom[offset + DCB_ENTRY_COUNT_OFFSET],
            entry_size: rom[offset + DCB_ENTRY_SIZE_OFFSET],
        },
    )
}

/// A located header has a supported version and carries the signature, and
/// a version out of range is always reported as such.
pub proof fn lemma_locate_version(rom: Seq<u8>)
    ensures
        locate_spec(rom) matches Ok(h) ==> DCB_MIN_VERSION <= h.version < DCB_MAX_VERSION
            && h.table_offset == header_offset(rom) && in_image(rom, h.table_offset as int, 10)
            && u32_le_at(rom, h.table_offset + DCB_SIGNATURE_OFFSET) == DCB_SIGNATURE,
        in_image(rom, DCB_HEADER_ADDR as int, 2) && in_image(rom, header_offset(rom), 1)
            && rom[header_offset(rom)] >= DCB_MAX_VERSION ==> locate_spec(rom) == Err::<
            DcbHeader,
            NVErrors,
        >(NVErrors::UnsupportedVersion),
        in_image(rom, DCB_HEADER_ADDR as int, 2) && in_image(rom, header_offset(rom), 1)
            && rom[header_offset(rom)] < DCB_MIN_VERSION ==> locate_spec(rom) == Err::<
            DcbHeader,
            NVErrors,
        >(NVErrors::IncompatibleHardware),
{
}

/// Where the word of table slot `number` starts: `first` is the offset of
/// slot 0 and `stride` the size of a slot.
pub open spec fn slot_offset(first: int, stride: int, number: int) -> int {
    first + stride * number
}

/// Whether the word of slot `number` lies inside the image.
pub open spec fn slot_readable(rom: Seq<u8>, first: int, stride: int, number: int) -> bool {
    in_image(rom, slot_offset(first, stride, number), 4)
}

/// The entry that slot `number` holds.
pub open spec fn slot_entry(rom: Seq<u8>, first: int, stride: int, number: int) -> DcbEntry {
    decode_entry(u32_le_at(rom, slot_offset(first, stride, number)) as u32, number as u8)
}

/// Whether the scan goes on past slot `number`: the slot can be read and does
/// not end the list.
pub open spec fn slot_passed(rom: Seq<u8>, first: int, stride: int, number: int) -> bool {
    slot_readable(rom, first, stride, number) && slot_entry(rom, first, stride, number).entry_type
        != DCB_CONN_EOL
}

/// The slot at which a scan that has reached slot `from` stops: the first
/// slot from there on that is not passed, or `count` when all are.
pub open spec fn scan_stop(rom: Seq<u8>, first: int, stride: int, count: int, from: int) -> int
    decreases count - from,
{
    if from >= count || !slot_passed(rom, first, stride, from) {
        from
    } else {
        scan_stop(rom, first, stride, count, from + 1)
    }
}

/// Whether an entry is kept in the decoded list: it is not an empty slot.
pub open spec fn entry_kept(entry: DcbEntry) -> bool {
    entry.entry_type != DCB_CONN_SKIP
}

/// [`entry_kept`] as a predicate to filter a sequence by.
pub open spec fn kept() -> spec_fn(DcbEntry) -> bool {
    |entry: DcbEntry| entry_kept(entry)
}

/// The entries of the table, decoded.
///
/// The scan reads slots `0 .. count` in order and stops at the first slot
/// that ends the list or cannot be read. A slot that cannot be read makes the
/// image corrupt. Otherwise the result holds the slots before the stop that
/// are not empty, in table order.
pub open spec fn entries_spec(rom: Seq<u8>, first: int, stride: int, count: int) -> Result<
    Seq<DcbEntry>,
    NVErrors,
> {
    let stop = scan_stop(rom, first, stride, count, 0);
    if stop < count && !slot_readable(rom, first, stride, stop) {
        Err(NVErrors::Corrupted)
    } else {
        Ok(Seq::new(stop as nat, |k: int| slot_entry(rom, first, stride, k)).filter(kept()))
    }
}

/// `scan_stop` is the least slot at which the scan does not go on.
pub proof fn lemma_scan_stop(rom: Seq<u8>, first: int, stride: int, count: int, from: int)
    requires
        0 <= from <= count,
    ensures
        from <= scan_stop(rom, first, stride, count, from) <= count,
        forall|k: int|
            from <= k < scan_stop(rom, first, stride, count, from) ==> slot_passed(
                rom,
                first,
                stride,
                k,
            ),
        scan_stop(rom, first, stride, count, from) < count ==> !slot_passed(
            rom,
            first,
            stride,
            scan_stop(rom, first, stride, count, from),
        ),
    decreases count - from,
{
    if from < count && slot_passed(rom, first, stride, from) {
        lemma_scan_stop(rom, first, stride, count, from + 1);
    }
}

/// A slot that is reached after passing every slot before it, and at which
/// the scan does not go on, is where the scan stops.
pub proof fn lemma_scan_stop_is(rom: Seq<u8>, first: int, stride: int, count: int, stop: int)
    requires
        0 <= stop <= count,
        forall|k: int| 0 <= k < stop ==> slot_passed(rom, first, stride, k),
        stop == count || !slot_passed(rom, first, stride, stop),
    ensures
        scan_stop(rom, first, stride, count, 0) == stop,
{
    lemma_scan_stop_from(rom, first, stride, count, stop, 0);
}

proof fn lemma_scan_stop_from(
    rom: Seq<u8>,
    first: int,
    stride: int,
    count: int,
    stop: int,
    from: int,
)
    requires
        0 <= from <= stop <= count,
        forall|k: int| from <= k < stop ==> slot_passed(rom, first, stride, k),
        stop == count || !slot_passed(rom, first, stride, stop),
    ensures
        scan_stop(rom, first, stride, count, from) == stop,
    decreases stop - from,
{
    if from < stop {
        lemma_scan_stop_from(rom, first, stride, count, stop, from + 1);
    }
}

/// The entries of the first `n` slots that are kept.
pub open spec fn kept_entries(rom: Seq<u8>, first: int, stride: int, n: nat) -> Seq<DcbEntry> {
    Seq::new(n, |k: int| slot_entry(rom, first, stride, k)).filter(kept())
}

/// Whether the positions of a list of entries grow strictly from one entry
/// to the next. The entries of such a list have distinct positions.
pub open spec fn positions_increase(entries: Seq<DcbEntry>) -> bool {
    forall|i: int, j: int|
        0 <= i < j < entries.len() ==> (#[trigger] entries[i]).entry < (#[trigger] entries[j]).entry
}

/// What the kept entries of the first `n` slots are: each is the entry of
/// its own slot and not an empty slot, every slot that is not empty is among
/// them, and they stand in table order.
pub proof fn lemma_kept_entries(rom: Seq<u8>, first: int, stride: int, n: nat)
    requires
        n <= 256,
    ensures
        forall|i: int|
            0 <= i < kept_entries(rom, first, stride, n).len() ==> {
                let e = #[trigger] kept_entries(rom, first, stride, n)[i];
                e.entry < n && e == slot_entry(rom, first, stride, e.entry as int)
                    && e.entry_type != DCB_CONN_SKIP
            },
        forall|k: int|
            0 <= k < n && entry_kept(slot_entry(rom, first, stride, k)) ==> kept_entries(
                rom,
                first,
                stride,
                n,
            ).contains(#[trigger] slot_entry(rom, first, stride, k)),
        positions_increase(kept_entries(rom, first, stride, n)),
    decreases n,
{
    let slots = |k: int| slot_entry(rom, first, stride, k);
    if n == 0 {
        assert(Seq::new(0, slots).filter(kept()) =~= Seq::<DcbEntry>::empty()) by {
            reveal(Seq::filter);
        }
    } else {
        let m = (n - 1) as nat;
        lemma_kept_entries(rom, first, stride, m);
        let before = Seq::new(m, slots);
        let last = slot_entry(rom, first, stride, m as int);
        assert(Seq::new(n, slots) =~= before.push(last));
        before.lemma_filter_push(last, kept());
        let old_kept = kept_entries(rom, first, stride, m);
        let new_kept = kept_entries(rom, first, stride, n);
        assert(last.entry == m);
        assert forall|k: int|
            0 <= k < n && entry_kept(slot_entry(rom, first, stride, k)) implies new_kept.contains(
            #[trigger] slot_entry(rom, first, stride, k),
        ) by {
            if k < m {
                let at = old_kept.index_of(slot_entry(rom, first, stride, k));
                assert(new_kept[at] == slot_entry(rom, first, stride, k));
            } else {
                assert(new_kept[new_kept.len() - 1] == last);
            }
        }
    }
}

/// The slot at which decoding the table stops.
pub open spec fn entries_stop(rom: Seq<u8>, first: int, stride: int, count: u8) -> int {
    scan_stop(rom, first, stride, count as int, 0)
}

/// The decoded list ends before the first end-of-list marker and holds no
/// empty slot; every slot before the stop that is not empty is in it, and
/// its entries stand in table order, each at the position of its slot.
pub proof fn lemma_entries_spec(rom: Seq<u8>, first: int, stride: int, count: u8)
    requires
        entries_spec(rom, first, stride, count as int) is Ok,
    ensures
        0 <= entries_stop(rom, first, stride, count) <= count,
        entries_stop(rom, first, stride, count) < count ==> slot_entry(
            rom,
            first,
            stride,
            entries_stop(rom, first, stride, count),
        ).entry_type == DCB_CONN_EOL,
        forall|k: int|
            0 <= k < entries_stop(rom, first, stride, count) ==> #[trigger] slot_passed(
                rom,
                first,
                stride,
                k,
            ),
        forall|i: int|
            0 <= i < entries_spec(rom, first, stride, count as int)->Ok_0.len() ==> {
                let e = #[trigger] entries_spec(rom, first, stride, count as int)->Ok_0[i];
                e.entry < entries_stop(rom, first, stride, count) && e == slot_entry(
                    rom,
                    first,
                    stride,
                    e.entry as int,
                ) && e.entry_type != DCB_CONN_SKIP && e.entry_type != DCB_CONN_EOL
            },
        forall|k: int|
            0 <= k < entries_stop(rom, first, stride, count) && slot_entry(
                rom,
                first,
                stride,
                k,
            ).entry_type != DCB_CONN_SKIP ==> entries_spec(
                rom,
                first,
                stride,
                count as int,
            )->Ok_0.contains(#[trigger] slot_entry(rom, first, stride, k)),
        positions_increase(entries_spec(rom, first, stride, count as int)->Ok_0),
{
    lemma_scan_stop(rom, first, stride, count as int, 0);
    let stop = entries_stop(rom, first, stride, count);
    lemma_kept_entries(rom, first, stride, stop as nat);
    let entries = entries_spec(rom, first, stride, count as int)->Ok_0;
    assert(entries == kept_entries(rom, first, stride, stop as nat));
    assert forall|i: int| 0 <= i < entries.len() implies (#[trigger] entries[i]).entry_type
        != DCB_CONN_EOL by {
        assert(slot_passed(rom, first, stride, entries[i].entry as int));
    }
}

/// An end-of-list marker cuts the decoded list: whatever the declared count,
/// no decoded entry stands at or after a slot that can be read and holds the
/// marker.
pub proof fn lemma_entries_end_at_marker(
    rom: Seq<u8>,
    first: int,
    stride: int,
    count: u8,
    marker: int,
)
    requires
        0 <= marker < count,
        slot_readable(rom, first, stride, marker),
        slot_entry(rom, first, stride, marker).entry_type == DCB_CONN_EOL,
        entries_spec(rom, first, stride, count as int) is Ok,
    ensures
        forall|i: int|
            0 <= i < entries_spec(rom, first, stride, count as int)->Ok_0.len() ==> (
            #[trigger] entries_spec(rom, first, stride, count as int)->Ok_0[i]).entry < marker,
{
    lemma_entries_spec(rom, first, stride, count);
    if entries_stop(rom, first, stride, count) > marker {
        assert(slot_passed(rom, first, stride, marker));
    }
}

/// Reads the word of slot `number`, or reports that it lies outside the image.
fn read_slot(rom: &Vec<u8>, offset: usize, dcb_size: usize, entry_size: u8, number: u8) -> (word:
    Option<u32>)
    ensures
        word is Some == slot_readable(rom@, offset + dcb_size, entry_size as int, number as int),
        word matches Some(w) ==> w == u32_le_at(
            rom@,
            slot_offset(offset + dcb_size, entry_size as int, number as int),
        ),
{
    let len: usize = rom.len();
    assert(0 <= entry_size * number <= 255 * 255) by (nonlinear_arith)
        requires
            0 <= entry_size <= 255,
            0 <= number <= 255,
    ;
    let within: usize = (entry_size as usize) * (number as usize);
    if offset > len || dcb_size > len - offset || within > len - offset - dcb_size || len - offset
        - dcb_size - within < 4 {
        return None;
    }
    Some(read_uint_32_le(rom, offset + dcb_size + within))
}

/// Decodes the entries of the DCB table whose header lies at `offset` and
/// whose first entry lies `dcb_size` bytes after it.
///
/// The entry count and the entry size are read from the header. A header
/// byte or an entry that lies outside the image makes the image corrupt.
pub fn parse_dcb_entries(rom: &Vec<u8>, offset: usize, dcb_size: usize) -> (res: Result<
    Vec<DcbEntry>,
    NVErrors,
>)
    ensures
        !in_image(rom@, offset as int, 4) ==> res == Err::<Vec<DcbEntry>, NVErrors>(
            NVErrors::Corrupted,
        ),
        in_image(rom@, offset as int, 4) ==> match entries_spec(
            rom@,
            offset + dcb_size,
            rom@[offset + DCB_ENTRY_SIZE_OFFSET] as int,
            rom@[offset + DCB_ENTRY_COUNT_OFFSET] as int,
        ) {
            Ok(entries) => res matches Ok(parsed) && parsed@ == entries,
            Err(e) => res == Err::<Vec<DcbEntry>, NVErrors>(e),
        },
{
    if !fits(rom, offset, 4) {
        return Err(NVErrors::Corrupted);
    }
    let dcb_entries: u8 = rom[offset + DCB_ENTRY_COUNT_OFFSET];
    let dcb_entry_size: u8 = rom[offset + DCB_ENTRY_SIZE_OFFSET];
    let ghost first: int = offset + dcb_size;
    let ghost stride: int = dcb_entry_size as int;
    let ghost count: int = dcb_entries as int;
    let ghost slots = |k: int| slot_entry(rom@, first, stride, k);
    let mut parsed_entries: Vec<DcbEntry> = Vec::new();
    let mut number: u8 = 0;
    assert(Seq::new(0, slots).filter(kept()) =~= Seq::<DcbEntry>::empty()) by {
        reveal(Seq::filter);
    }
    while number < dcb_entries
        invariant
            number <= dcb_entries,
            in_image(rom@, offset as int, 4),
            dcb_entries == rom@[offset + DCB_ENTRY_COUNT_OFFSET],
            dcb_entry_size == rom@[offset + DCB_ENTRY_SIZE_OFFSET],
            first == offset + dcb_size,
            stride == dcb_entry_size as int,
            count == dcb_entries as int,
            slots == (|k: int| slot_entry(rom@, first, stride, k)),
            forall|k: int| 0 <= k < number ==> slot_passed(rom@, first, stride, k),
            parsed_entries@ == Seq::new(number as nat, slots).filter(kept()),
        decreases dcb_entries - number,
    {
        let conn: u32 = match read_slot(rom, offset, dcb_size, dcb_entry_size, number) {
            Some(word) => word,
            None => {
                proof {
                    lemma_scan_stop_is(rom@, first, stride, count, number as int);
                }
                return Err(NVErrors::Corrupted);
            },
        };
        let dcb_head = parse_dcb_entry(conn, number);
        assert(dcb_head == slot_entry(rom@, first, stride, number as int));
        if dcb_head.entry_type == DCB_CONN_EOL {
            proof {
                lemma_scan_stop_is(rom@, first, stride, count, number as int);
            }
            return Ok(parsed_entries);
        }
        proof {
            let before = Seq::new(number as nat, slots);
            assert(Seq::new((number + 1) as nat, slots) =~= before.push(dcb_head));
            before.lemma_filter_push(dcb_head, kept());
        }
        if dcb_head.entry_type != DCB_CONN_SKIP {
            parsed_entries.push(dcb_head);
        }
        number += 1;
    }
    proof {
        lemma_scan_stop_is(rom@, first, stride, count, number as int);
    }
    Ok(parsed_entries)
}

/// What decoding a firmware image yields: the entries of its DCB table and
/// the displays they merge into, or the reason why it cannot be decoded.
pub open spec fn read_rom_spec(rom: Seq<u8>) -> Result<(Seq<DcbEntry>, Seq<DisplayView>), NVErrors> {
    match locate_spec(rom) {
        Err(e) => Err(e),
        Ok(header) => match entries_spec(
            rom,
            header.table_offset + header.table_size,
            header.entry_size as int,
            header.entry_count as int,
        ) {
            Err(e) => Err(e),
            Ok(entries) => Ok((entries, merge_spec(entries))),
        },
    }
}

/// Decodes a firmware image: locates the DCB, decodes its entries and merges
/// them into displays.
pub fn read_rom(rom: &Vec<u8>) -> (res: Result<(Vec<DcbEntry>, Vec<Display>), NVErrors>)
    ensures
        match read_rom_spec(rom@) {
            Ok((entries, displays)) => res matches Ok(decoded) && decoded.0@ == entries
                && display_views(decoded.1@) == displays,
            Err(e) => res == Err::<(Vec<DcbEntry>, Vec<Display>), NVErrors>(e),
        },
{
    let header = match locate_dcb(rom) {
        Ok(header) => header,
        Err(e) => {
            return Err(e);
        },
    };
    let parsed_dcb_entries = match parse_dcb_entries(rom, header.table_offset, header.table_size) {
        Ok(entries) => entries,
        Err(e) => {
            return Err(e);
        },
    };
    let filtered_disp_entries = merge_dcb_entries(&parsed_dcb_entries);
    Ok((parsed_dcb_entries, filtered_disp_entries))
}

/// An image decodes only if its DCB version is supported, and an image whose
/// version byte can be read and is out of range is refused for its version,
/// whatever else it holds.
pub proof fn lemma_read_rom_version(rom: Seq<u8>)
    ensures
        read_rom_spec(rom) is Ok ==> in_image(rom, DCB_HEADER_ADDR as int, 2) && in_image(
            rom,
            header_offset(rom),
            1,
        ) && DCB_MIN_VERSION <= rom[header_offset(rom)] < DCB_MAX_VERSION,
        in_image(rom, DCB_HEADER_ADDR as int, 2) && in_image(rom, header_offset(rom), 1)
            && rom[header_offset(rom)] >= DCB_MAX_VERSION ==> read_rom_spec(rom) == Err::<
            (Seq<DcbEntry>, Seq<DisplayView>),
            NVErrors,
        >(NVErrors::UnsupportedVersion),
        in_image(rom, DCB_HEADER_ADDR as int, 2) && in_image(rom, header_offset(rom), 1)
            && rom[header_offset(rom)] < DCB_MIN_VERSION ==> read_rom_spec(rom) == Err::<
            (Seq<DcbEntry>, Seq<DisplayView>),
            NVErrors,
        >(NVErrors::IncompatibleHardware),
        !(read_rom_spec(rom) matches Err(e) && e == NVErrors::FileNotFound),
{
}

/// Entries whose positions grow strictly have distinct positions.
pub proof fn lemma_increasing_positions_distinct(entries: Seq<DcbEntry>)
    requires
        positions_increase(entries),
    ensures
        distinct_positions(entries),
{
}

/// In a decoded image every entry belongs to exactly one display: the
/// position of each decoded entry is held by one display, and a position
/// that no decoded entry has is held by none.
pub proof fn lemma_read_rom_displays(rom: Seq<u8>, position: u8)
    requires
        read_rom_spec(rom) is Ok,
    ensures
        displays_holding(read_rom_spec(rom)->Ok_0.1, position) == (if has_position(
            read_rom_spec(rom)->Ok_0.0,
            0,
            position,
        ) {
            1nat
        } else {
            0nat
        }),
{
    let header = locate_spec(rom)->Ok_0;
    lemma_entries_spec(
        rom,
        header.table_offset + header.table_size,
        header.entry_size as int,
        header.entry_count,
    );
    let entries = read_rom_spec(rom)->Ok_0.0;
    lemma_increasing_positions_distinct(entries);
    lemma_merge_uses_each_entry_once(entries, position);
}

} // verus!
