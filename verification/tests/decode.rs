use nvcap_calculator::merge::merge_dcb_entries;
use nvcap_calculator::nvidia::{
    dcb_type_to_string, locate_dcb, parse_dcb_entries, parse_dcb_entry, parse_signature, read_rom,
    DcbEntry,
};
use nvcap_calculator::util::{read_uint_16_le, read_uint_32_le, DisplayType, NVErrors};

const TABLE: usize = 0x40;
const HEADER_LEN: u8 = 10;

fn word(entry_type: u32, heads: u32, bus: u32) -> u32 {
    entry_type | (heads << 8) | (bus << 16)
}

/// An image whose DCB table starts at 0x40, with 4-byte entries.
fn image(version: u8, words: &[u32]) -> Vec<u8> {
    let mut rom = vec![0u8; TABLE];
    rom[0x36] = (TABLE & 0xff) as u8;
    rom[0x37] = (TABLE >> 8) as u8;
    rom.push(version);
    rom.push(HEADER_LEN);
    rom.push(words.len() as u8);
    rom.push(4);
    rom.extend_from_slice(&[0, 0]);
    rom.extend_from_slice(&[0xcb, 0xbd, 0xdc, 0x4e]);
    for w in words {
        rom.extend_from_slice(&w.to_le_bytes());
    }
    rom
}

#[test]
fn reads_little_endian_words() {
    let rom = vec![0x34, 0x12, 0x78, 0x56, 0xff];
    assert_eq!(read_uint_16_le(&rom, 0), 0x1234);
    assert_eq!(read_uint_16_le(&rom, 3), 0xff56);
    assert_eq!(read_uint_32_le(&rom, 0), 0x5678_1234);
    assert_eq!(read_uint_32_le(&rom, 1), 0xff56_7812);
}

#[test]
fn names_connector_types() {
    assert_eq!(dcb_type_to_string(0), "CRT");
    assert_eq!(dcb_type_to_string(1), "TV");
    assert_eq!(dcb_type_to_string(2), "TMDS");
    assert_eq!(dcb_type_to_string(3), "LVDS");
    assert_eq!(dcb_type_to_string(4), "Unknown");
    assert_eq!(dcb_type_to_string(5), "SDI");
    assert_eq!(dcb_type_to_string(6), "DisplayPort");
    assert_eq!(dcb_type_to_string(0xe), "Unknown");
}

#[test]
fn splits_a_word_into_its_fields() {
    // reserved=5 (virtual), resources=0xa, bbdr=1, bdr=0, loc=2, bus=3,
    // con=4, heads=0xc, edid=7, type=2
    let conn: u32 = (5 << 28) | (0xa << 24) | (1 << 23) | (2 << 20) | (3 << 16) | (4 << 12)
        | (0xc << 8) | (7 << 4) | 2;
    let e = parse_dcb_entry(conn, 9);
    assert_eq!(
        e,
        DcbEntry {
            entry_type: 2,
            edid_port: 7,
            head_bitmask: 0xc,
            con: 4,
            bus: 3,
            loc: 2,
            bdr: 0,
            bbdr: 1,
            output_resources: 0xa,
            entry_is_virtual: true,
            reserved: 5,
            entry: 9,
        }
    );
    let all = parse_dcb_entry(0xffff_ffff, 0);
    assert_eq!(all.entry_type, 0xf);
    assert_eq!(all.loc, 3);
    assert_eq!(all.bdr, 1);
    assert_eq!(all.reserved, 7);
    assert!(all.entry_is_virtual);
    assert!(!parse_dcb_entry(0x2000_0000, 0).entry_is_virtual);
}

#[test]
fn signature_needs_version_and_magic() {
    let rom = image(0x40, &[]);
    assert!(parse_signature(0x40, &rom, TABLE));
    assert!(parse_signature(0x30, &rom, TABLE));
    assert!(parse_signature(0x41, &rom, TABLE));
    assert!(!parse_signature(0x42, &rom, TABLE));
    assert!(!parse_signature(0x2f, &rom, TABLE));
    assert!(!parse_signature(0x40, &rom, TABLE + 1));
    // the signature would end past the image
    assert!(!parse_signature(0x40, &rom, rom.len() - 9));
    assert!(!parse_signature(0x40, &rom, usize::MAX));
}

#[test]
fn locates_the_header() {
    let rom = image(0x40, &[word(0, 3, 2), word(2, 1, 5)]);
    let h = locate_dcb(&rom).unwrap();
    assert_eq!(h.table_offset, TABLE);
    assert_eq!(h.version, 0x40);
    assert_eq!(h.table_size, 10);
    assert_eq!(h.entry_count, 2);
    assert_eq!(h.entry_size, 4);
}

#[test]
fn version_out_of_range_is_refused() {
    assert_eq!(locate_dcb(&image(0x42, &[])), Err(NVErrors::UnsupportedVersion));
    assert_eq!(locate_dcb(&image(0xff, &[])), Err(NVErrors::UnsupportedVersion));
    assert_eq!(locate_dcb(&image(0x2f, &[])), Err(NVErrors::IncompatibleHardware));
    assert_eq!(locate_dcb(&image(0x00, &[])), Err(NVErrors::IncompatibleHardware));
    assert!(locate_dcb(&image(0x30, &[])).is_ok());
    assert!(locate_dcb(&image(0x41, &[])).is_ok());
    assert_eq!(read_rom(&image(0x42, &[word(0, 3, 2)])).err(), Some(NVErrors::UnsupportedVersion));
    assert_eq!(
        read_rom(&image(0x22, &[word(0, 3, 2)])).err(),
        Some(NVErrors::IncompatibleHardware)
    );
}

#[test]
fn version_is_judged_before_the_signature() {
    // A header cut off right after its version byte.
    let mut rom = image(0x50, &[]);
    rom.truncate(TABLE + 1);
    assert_eq!(locate_dcb(&rom), Err(NVErrors::UnsupportedVersion));
    rom[TABLE] = 0x10;
    assert_eq!(locate_dcb(&rom), Err(NVErrors::IncompatibleHardware));
    rom[TABLE] = 0x40;
    assert_eq!(locate_dcb(&rom), Err(NVErrors::Corrupted));
}

#[test]
fn damaged_images_are_corrupt() {
    assert_eq!(locate_dcb(&Vec::new()), Err(NVErrors::Corrupted));
    assert_eq!(locate_dcb(&vec![0u8; 0x37]), Err(NVErrors::Corrupted));
    // the pointer leads past the end
    let mut rom = vec![0u8; 0x38];
    rom[0x36] = 0x38;
    assert_eq!(locate_dcb(&rom), Err(NVErrors::Corrupted));
    // wrong signature
    let mut rom = image(0x40, &[]);
    rom[TABLE + 6] = 0xcc;
    assert_eq!(locate_dcb(&rom), Err(NVErrors::Corrupted));
    assert_eq!(read_rom(&rom).err(), Some(NVErrors::Corrupted));
}

#[test]
fn entry_outside_the_image_is_corrupt() {
    let mut rom = image(0x40, &[word(0, 3, 2), word(2, 1, 5)]);
    rom.pop();
    assert_eq!(read_rom(&rom).err(), Some(NVErrors::Corrupted));
    assert_eq!(parse_dcb_entries(&rom, TABLE, 10).err(), Some(NVErrors::Corrupted));
    // more entries declared than the image holds
    let mut rom = image(0x40, &[word(0, 3, 2)]);
    rom[TABLE + 2] = 2;
    assert_eq!(read_rom(&rom).err(), Some(NVErrors::Corrupted));
    // header bytes missing
    assert_eq!(parse_dcb_entries(&vec![0u8; 3], 0, 0).err(), Some(NVErrors::Corrupted));
    assert_eq!(parse_dcb_entries(&rom, usize::MAX, usize::MAX).err(), Some(NVErrors::Corrupted));
}

#[test]
fn decoding_stops_at_the_end_marker() {
    let mut rom = image(0x40, &[word(0, 3, 2), word(0xe, 0, 0), word(2, 1, 5)]);
    let (entries, displays) = read_rom(&rom).unwrap();
    assert_eq!(entries.len(), 1);
    assert_eq!(entries[0].entry, 0);
    assert_eq!(displays.len(), 1);
    // Slots after the marker are never read: they may lie outside the image.
    rom[TABLE + 2] = 200;
    let (entries, _) = read_rom(&rom).unwrap();
    assert_eq!(entries.len(), 1);
    // A marker in the first slot leaves nothing.
    let rom = image(0x40, &[word(0xe, 0, 0), word(2, 1, 5)]);
    let (entries, displays) = read_rom(&rom).unwrap();
    assert!(entries.is_empty());
    assert!(displays.is_empty());
}

#[test]
fn empty_slots_are_skipped() {
    let rom = image(0x40, &[word(0xf, 0, 0), word(0, 3, 2), word(0xf, 1, 2), word(3, 1, 7)]);
    let (entries, displays) = read_rom(&rom).unwrap();
    assert_eq!(entries.len(), 2);
    assert_eq!(entries[0].entry, 1);
    assert_eq!(entries[0].entry_type, 0);
    assert_eq!(entries[1].entry, 3);
    assert_eq!(entries[1].entry_type, 3);
    assert_eq!(displays.len(), 2);
    assert_eq!(displays[0].dcb_entries, vec![1]);
    assert_eq!(displays[1].dcb_entries, vec![3]);
}

#[test]
fn entries_follow_the_declared_stride() {
    // 8-byte slots, first entry 12 bytes after the header start.
    let mut rom = vec![0u8; 0x100];
    rom[0x36] = 0x80;
    rom[0x80] = 0x40;
    rom[0x81] = 12;
    rom[0x82] = 3;
    rom[0x83] = 8;
    rom[0x86..0x8a].copy_from_slice(&[0xcb, 0xbd, 0xdc, 0x4e]);
    rom[0x8c..0x90].copy_from_slice(&word(1, 1, 1).to_le_bytes());
    rom[0x94..0x98].copy_from_slice(&word(3, 2, 4).to_le_bytes());
    rom[0x9c..0xa0].copy_from_slice(&word(6, 4, 9).to_le_bytes());
    let (entries, _) = read_rom(&rom).unwrap();
    assert_eq!(entries.len(), 3);
    assert_eq!((entries[0].entry_type, entries[0].bus, entries[0].entry), (1, 1, 0));
    assert_eq!((entries[1].entry_type, entries[1].bus, entries[1].entry), (3, 4, 1));
    assert_eq!((entries[2].entry_type, entries[2].bus, entries[2].entry), (6, 9, 2));
}

#[test]
fn empty_table_decodes_to_nothing() {
    let (entries, displays) = read_rom(&image(0x40, &[])).unwrap();
    assert!(entries.is_empty());
    assert!(displays.is_empty());
}

#[test]
fn single_crt_entry_is_one_analog_display() {
    let rom = image(0x40, &[word(0, 0b0011, 2)]);
    let (entries, displays) = read_rom(&rom).unwrap();
    assert_eq!(entries.len(), 1);
    assert_eq!(entries[0].entry_type, 0);
    assert_eq!(entries[0].head_bitmask, 0b0011);
    assert_eq!(entries[0].bus, 2);
    assert_eq!(displays.len(), 1);
    assert_eq!(displays[0].disp_type, DisplayType::Analog);
    assert_eq!(displays[0].head_bitmask, 0b0011);
    assert_eq!(displays[0].dcb_entries, vec![0]);
}

#[test]
fn two_tmds_entries_on_one_bus_merge() {
    let rom = image(0x40, &[word(2, 0b0001, 5), word(2, 0b0011, 5)]);
    let (entries, displays) = read_rom(&rom).unwrap();
    assert_eq!(entries.len(), 2);
    assert_eq!(displays.len(), 1);
    assert_eq!(displays[0].disp_type, DisplayType::Digital);
    assert_eq!(displays[0].head_bitmask, 0b0001);
    assert_eq!(displays[0].dcb_entries.len(), 2);
    assert_eq!(displays[0].dcb_entries, vec![0, 1]);
}

#[test]
fn entries_of_differing_type_merge_into_dvi() {
    let rom = image(0x40, &[word(2, 0b0011, 5), word(6, 0b0010, 5)]);
    let (_, displays) = read_rom(&rom).unwrap();
    assert_eq!(displays.len(), 1);
    assert_eq!(displays[0].disp_type, DisplayType::DVI);
    assert_eq!(displays[0].head_bitmask, 0b0010);
    assert_eq!(displays[0].dcb_entries, vec![0, 1]);
}

fn entry(entry_type: u32, heads: u32, bus: u32, position: u8) -> DcbEntry {
    parse_dcb_entry(word(entry_type, heads, bus), position)
}

#[test]
fn display_kind_follows_the_connector_type() {
    let kinds: Vec<DisplayType> = merge_dcb_entries(&vec![
        entry(0, 1, 0, 0),
        entry(1, 1, 1, 1),
        entry(2, 1, 2, 2),
        entry(3, 1, 3, 3),
        entry(5, 1, 4, 4),
        entry(6, 1, 5, 5),
        entry(4, 1, 6, 6),
    ])
    .iter()
    .map(|d| d.disp_type)
    .collect();
    assert_eq!(
        kinds,
        vec![
            DisplayType::Analog,
            DisplayType::TV,
            DisplayType::Digital,
            DisplayType::LVDS,
            DisplayType::Digital,
            DisplayType::Digital,
            DisplayType::Digital,
        ]
    );
}

#[test]
fn merged_pair_of_same_type_takes_that_kind() {
    let displays = merge_dcb_entries(&vec![entry(3, 0b0111, 1, 0), entry(3, 0b1110, 1, 1)]);
    assert_eq!(displays.len(), 1);
    assert_eq!(displays[0].disp_type, DisplayType::LVDS);
    assert_eq!(displays[0].head_bitmask, 0b0110);
}

#[test]
fn every_entry_lands_in_exactly_one_display() {
    // Three entries on bus 5: the first two pair, the third stays alone.
    let entries = vec![
        entry(2, 0b0011, 5, 0),
        entry(0, 0b0001, 1, 1),
        entry(2, 0b0010, 5, 2),
        entry(2, 0b0011, 5, 3),
        entry(6, 0b0100, 7, 4),
        entry(6, 0b1100, 7, 6),
    ];
    let displays = merge_dcb_entries(&entries);
    let backing: Vec<Vec<u8>> = displays.iter().map(|d| d.dcb_entries.clone()).collect();
    assert_eq!(backing, vec![vec![0, 2], vec![1], vec![3], vec![4, 6]]);
    for e in &entries {
        let holders = displays.iter().filter(|d| d.dcb_entries.contains(&e.entry)).count();
        assert_eq!(holders, 1);
    }
    assert_eq!(displays[0].head_bitmask, 0b0010);
    assert_eq!(displays[2].head_bitmask, 0b0011);
    assert_eq!(displays[3].head_bitmask, 0b0100);
    assert_eq!(displays[3].disp_type, DisplayType::Digital);
}

#[test]
fn four_entries_on_one_bus_make_two_pairs() {
    let entries =
        vec![entry(2, 1, 5, 0), entry(2, 3, 5, 1), entry(6, 2, 5, 2), entry(2, 6, 5, 3)];
    let displays = merge_dcb_entries(&entries);
    assert_eq!(displays.len(), 2);
    assert_eq!(displays[0].dcb_entries, vec![0, 1]);
    assert_eq!(displays[1].dcb_entries, vec![2, 3]);
    assert_eq!(displays[1].disp_type, DisplayType::DVI);
    assert_eq!(displays[1].head_bitmask, 2);
}

#[test]
fn merged_mask_is_within_both_halves() {
    for a in 0..16u32 {
        for b in 0..16u32 {
            let entries = vec![entry(2, a, 5, 0), entry(2, b, 5, 1)];
            let displays = merge_dcb_entries(&entries);
            assert_eq!(displays.len(), 1);
            let m = displays[0].head_bitmask;
            assert_eq!(m, a & b);
            assert_eq!(m & a, m);
            assert_eq!(m & b, m);
        }
    }
}

#[test]
fn merging_nothing_gives_nothing() {
    assert!(merge_dcb_entries(&Vec::new()).is_empty());
}
