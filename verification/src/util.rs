//! Shared types and the little-endian byte readers.

use vstd::prelude::*;

verus! {

/// What kind of output a logical display is.
#[derive(Debug, Clone, Copy, PartialEq, Eq, Structural)]
pub enum DisplayType {
    LVDS,
    TV,
    Analog,
    Digital,
    DVI,
}

/// Why a firmware image could not be decoded.
#[derive(Debug, Clone, Copy, PartialEq, Eq, Structural)]
pub enum NVErrors {
    /// The image could not be read at all. The decoder itself never reports
    /// this; it is for the caller that loads the image.
    FileNotFound,
    /// The DCB version is `0x42` or later.
    UnsupportedVersion,
    /// The DCB version is older than `0x30`.
    IncompatibleHardware,
    /// The signature is wrong, or a field lies outside the image.
    Corrupted,
}

/// A logical display: one DCB entry, or two entries on the same bus.
#[derive(Debug)]
pub struct Display {
    pub disp_type: DisplayType,
    pub dcb_entries: Vec<u8>,
    pub head_bitmask: u32,
}

/// The mathematical value of a [`Display`].
pub struct DisplayView {
    pub disp_type: DisplayType,
    pub dcb_entries: Seq<u8>,
    pub head_bitmask: u32,
}

impl View for Display {
    type V = DisplayView;

    open spec fn view(&self) -> DisplayView {
        DisplayView {
            disp_type: self.disp_type,
            dcb_entries: self.dcb_entries@,
            head_bitmask: self.head_bitmask,
        }
    }
}

/// The views of a list of displays, in order.
pub open spec fn display_views(displays: Seq<Display>) -> Seq<DisplayView> {
    Seq::new(displays.len(), |i: int| displays[i]@)
}

/// The 16-bit little-endian value of the two bytes at `offset`.
pub open spec fn u16_le_at(rom: Seq<u8>, offset: int) -> int
    recommends
        0 <= offset,
        offset + 2 <= rom.len(),
{
    rom[offset] + 0x100 * rom[offset + 1]
}

/// The 32-bit little-endian value of the four bytes at `offset`.
pub open spec fn u32_le_at(rom: Seq<u8>, offset: int) -> int
    recommends
        0 <= offset,
        offset + 4 <= rom.len(),
{
    rom[offset] + 0x100 * rom[offset + 1] + 0x1_0000 * rom[offset + 2] + 0x100_0000 * rom[offset
        + 3]
}

/// Reads a little-endian `u16` at `offset`.
pub fn read_uint_16_le(rom: &Vec<u8>, offset: usize) -> (value: u16)
    requires
        offset + 2 <= rom.len(),
    ensures
        value == u16_le_at(rom@, offset as int),
{
    let lo: u16 = rom[offset] as u16;
    let hi: u16 = rom[offset + 1] as u16;
    assert(hi << 8 == 0x100 * hi) by (bit_vector)
        requires
            hi < 0x100,
    ;
    lo + (hi << 8)
}

/// Reads a little-endian `u32` at `offset`.
pub fn read_uint_32_le(rom: &Vec<u8>, offset: usize) -> (value: u32)
    requires
        offset + 4 <= rom.len(),
    ensures
        value == u32_le_at(rom@, offset as int),
{
    let b0: u32 = rom[offset] as u32;
    let b1: u32 = rom[offset + 1] as u32;
    let b2: u32 = rom[offset + 2] as u32;
    let b3: u32 = rom[offset + 3] as u32;
    assert(b1 << 8 == 0x100 * b1 && b2 << 16 == 0x1_0000 * b2 && b3 << 24 == 0x100_0000 * b3)
        by (bit_vector)
        requires
            b1 < 0x100,
            b2 < 0x100,
            b3 < 0x100,
    ;
    b0 + (b1 << 8) + (b2 << 16) + (b3 << 24)
}

/// Whether some display in the list has the kind `kind`.
pub open spec fn has_kind(displays: Seq<DisplayView>, kind: DisplayType) -> bool {
    exists|i: int| 0 <= i < displays.len() && (#[trigger] displays[i]).disp_type == kind
}

fn any_of_kind(displays: &Vec<Display>, kind: DisplayType) -> (found: bool)
    ensures
        found == has_kind(display_views(displays@), kind),
{
    let mut i: usize = 0;
    while i < displays.len()
        invariant
            i <= displays.len(),
            forall|j: int| 0 <= j < i ==> (#[trigger] display_views(displays@)[j]).disp_type != kind,
        decreases displays.len() - i,
    {
        if displays[i].disp_type == kind {
            assert(display_views(displays@)[i as int].disp_type == kind);
            return true;
        }
        i += 1;
    }
    false
}

/// Whether the card drives a built-in panel: some display is LVDS.
pub fn is_mobile(displays: &Vec<Display>) -> (mobile: bool)
    ensures
        mobile == has_kind(display_views(displays@), DisplayType::LVDS),
{
    any_of_kind(displays, DisplayType::LVDS)
}

/// Whether the card has a composite output: some display is TV.
pub fn has_tv(displays: &Vec<Display>) -> (tv: bool)
    ensures
        tv == has_kind(display_views(displays@), DisplayType::TV),
{
    any_of_kind(displays, DisplayType::TV)
}

/// The words of farewell for an hour of the day: morning from 3 to 11,
/// afternoon from 12 to 17, evening from 18 to 21, night otherwise.
pub open spec fn farewell_of(hour: u32) -> Seq<char> {
    if 3 <= hour <= 11 {
        "Have a nice morning!"@
    } else if 12 <= hour <= 17 {
        "Have a nice afternoon!"@
    } else if 18 <= hour <= 21 {
        "Have a nice evening!"@
    } else {
        "Have a nice night!"@
    }
}

/// The words of farewell for an hour of the day.
pub fn farewell(hour: u32) -> (words: &'static str)
    ensures
        words@ == farewell_of(hour),
{
    if 3 <= hour && hour <= 11 {
        "Have a nice morning!"
    } else if 12 <= hour && hour <= 17 {
        "Have a nice afternoon!"
    } else if 18 <= hour && hour <= 21 {
        "Have a nice evening!"
    } else {
        "Have a nice night!"
    }
}

} // verus!
