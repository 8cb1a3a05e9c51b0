use nvcap_calculator::nvcap::{
    assign_heads, check_head_mask, create_head_mask, create_nvcap_value, default_nvcap,
    head_allowed, nvcap_to_bytes, BuildError, Head, FIELD_F_MODERN, HEAD_0_BITMASK,
    HEAD_1_BITMASK, HEAD_2_BITMASK, HEAD_3_BITMASK, NVCAP, NVCAP_LEN, NVCAP_VERSION_MODERN,
};
use nvcap_calculator::util::{has_tv, is_mobile, Display, DisplayType};

fn display(disp_type: DisplayType, entries: &[u8], head_bitmask: u32) -> Display {
    Display { disp_type, dcb_entries: entries.to_vec(), head_bitmask }
}

fn desktop() -> Vec<Display> {
    vec![
        display(DisplayType::DVI, &[0, 1], 0b0011),
        display(DisplayType::Analog, &[2], 0b0001),
        display(DisplayType::Digital, &[3, 4], 0b0010),
    ]
}

#[test]
fn defaults_of_a_desktop_card() {
    let displays = desktop();
    assert!(!is_mobile(&displays));
    assert!(!has_tv(&displays));
    let nvcap = default_nvcap(&displays);
    assert_eq!(
        nvcap,
        NVCAP {
            version: 5,
            is_mobile: false,
            is_composite: false,
            unknown_1: 0,
            dcb_tv_mask: 0,
            dcb_0_mask: 0,
            dcb_1_mask: 0,
            dcb_2_mask: 0,
            dcb_3_mask: 0,
            script_based_power_and_backlight: false,
            field_f: 0x0f,
            edid_bitness: 0,
            unknown_2: [0, 0, 0],
        }
    );
    assert_eq!(NVCAP_VERSION_MODERN, 5);
    assert_eq!(FIELD_F_MODERN, 0x0f);
    assert_eq!(HEAD_0_BITMASK, 1);
    assert_eq!(HEAD_1_BITMASK, 2);
    assert_eq!(HEAD_2_BITMASK, 4);
    assert_eq!(HEAD_3_BITMASK, 8);
}

#[test]
fn mobile_exactly_when_a_display_is_lvds() {
    let mut displays = desktop();
    assert!(!default_nvcap(&displays).is_mobile);
    displays.push(display(DisplayType::LVDS, &[5], 1));
    assert!(is_mobile(&displays));
    assert!(default_nvcap(&displays).is_mobile);
    assert!(!default_nvcap(&displays).is_composite);
    assert!(!default_nvcap(&Vec::new()).is_mobile);
}

#[test]
fn composite_exactly_when_a_display_is_tv() {
    let mut displays = desktop();
    assert!(!default_nvcap(&displays).is_composite);
    displays.insert(0, display(DisplayType::TV, &[5], 1));
    assert!(has_tv(&displays));
    assert!(default_nvcap(&displays).is_composite);
    assert!(!default_nvcap(&displays).is_mobile);
    assert!(!default_nvcap(&Vec::new()).is_composite);
    displays.push(display(DisplayType::LVDS, &[6], 1));
    let nvcap = default_nvcap(&displays);
    assert!(nvcap.is_mobile && nvcap.is_composite);
}

#[test]
fn head_bits() {
    assert!(head_allowed(0, Head::TV));
    assert!(head_allowed(0b0001, Head::Head0));
    assert!(!head_allowed(0b0001, Head::Head1));
    assert!(head_allowed(0b0010, Head::Head1));
    assert!(!head_allowed(0b1110, Head::Head0));
    assert!(!head_allowed(0b1100, Head::Head1));
    assert!(head_allowed(0b0100, Head::Head2));
    assert!(!head_allowed(0b1011, Head::Head2));
    assert!(head_allowed(0b1000, Head::Head3));
    assert!(!head_allowed(0b0111, Head::Head3));
}

#[test]
fn head_mask_has_the_bits_of_the_chosen_entries() {
    let displays = desktop();
    assert_eq!(create_head_mask(&displays, Head::Head0, &vec![]), Ok(0));
    assert_eq!(create_head_mask(&displays, Head::Head0, &vec![0]), Ok(0b0000_0011));
    assert_eq!(create_head_mask(&displays, Head::Head0, &vec![1, 0]), Ok(0b0000_0111));
    assert_eq!(create_head_mask(&displays, Head::Head1, &vec![2, 0]), Ok(0b0001_1011));
    assert_eq!(create_head_mask(&displays, Head::Head1, &vec![2, 2]), Ok(0b0001_1000));
    assert_eq!(create_head_mask(&displays, Head::TV, &vec![0, 1, 2]), Ok(0b0001_1111));
    let high = vec![display(DisplayType::Digital, &[15, 8], 3)];
    assert_eq!(create_head_mask(&high, Head::Head0, &vec![0]), Ok(0x8100));
}

#[test]
fn head_mask_refuses_a_head_that_the_display_lacks() {
    let displays = desktop();
    assert_eq!(
        create_head_mask(&displays, Head::Head1, &vec![0, 1]),
        Err(BuildError::ConfigurationInconsistent { head: Head::Head1, display: 1 })
    );
    assert_eq!(
        create_head_mask(&displays, Head::Head0, &vec![2]),
        Err(BuildError::ConfigurationInconsistent { head: Head::Head0, display: 2 })
    );
}

#[test]
fn head_mask_refuses_an_unknown_display() {
    let displays = desktop();
    assert_eq!(
        create_head_mask(&displays, Head::TV, &vec![0, 3]),
        Err(BuildError::ConfigurationInconsistent { head: Head::TV, display: 3 })
    );
    assert_eq!(
        create_head_mask(&Vec::new(), Head::Head0, &vec![0]),
        Err(BuildError::ConfigurationInconsistent { head: Head::Head0, display: 0 })
    );
}

#[test]
fn head_mask_refuses_an_entry_without_a_bit() {
    let displays = vec![display(DisplayType::Digital, &[3, 16], 3)];
    assert_eq!(
        create_head_mask(&displays, Head::Head0, &vec![0]),
        Err(BuildError::ConfigurationInconsistent { head: Head::Head0, display: 0 })
    );
    let displays = vec![display(DisplayType::Digital, &[255], 3)];
    assert!(create_head_mask(&displays, Head::TV, &vec![0]).is_err());
}

#[test]
fn assigning_heads_sets_the_three_masks_only() {
    let mut displays = desktop();
    displays.push(display(DisplayType::Digital, &[5, 6], 0b1100));
    let mut nvcap = default_nvcap(&displays);
    nvcap.dcb_2_mask = 0x0060;
    nvcap.dcb_3_mask = 0x0020;
    nvcap.dcb_tv_mask = 0xffff;
    nvcap.unknown_1 = 9;
    let assigned = assign_heads(&nvcap, &displays, &vec![], &vec![0, 1], &vec![2]).unwrap();
    let mut expected = nvcap;
    expected.dcb_tv_mask = 0;
    expected.dcb_0_mask = 0b0111;
    expected.dcb_1_mask = 0b1_1000;
    assert_eq!(assigned, expected);
}

#[test]
fn held_masks_are_checked_against_the_displays() {
    let displays = vec![
        display(DisplayType::Digital, &[0, 1], 0b0011),
        display(DisplayType::Digital, &[2], 0b0100),
        display(DisplayType::Digital, &[3, 9], 0b1100),
        display(DisplayType::Analog, &[9], 0b0001),
    ];
    assert_eq!(check_head_mask(&displays, Head::Head2, 0), Ok(0));
    assert_eq!(check_head_mask(&displays, Head::Head2, 0b10_0000_1100), Ok(0b10_0000_1100));
    assert_eq!(check_head_mask(&displays, Head::Head3, 0b10_0000_1000), Ok(0b10_0000_1000));
    // entry 2 belongs to a display that the fourth head cannot drive
    assert_eq!(
        check_head_mask(&displays, Head::Head3, 0b1100),
        Err(BuildError::ConfigurationInconsistent { head: Head::Head3, display: 1 })
    );
    // the lowest stray bit is reported
    assert_eq!(
        check_head_mask(&displays, Head::Head2, 0b0111),
        Err(BuildError::ConfigurationInconsistent { head: Head::Head2, display: 0 })
    );
    // no display holds entry 4
    assert_eq!(
        check_head_mask(&displays, Head::Head2, 0b1_0000),
        Err(BuildError::ConfigurationInconsistent { head: Head::Head2, display: 4 })
    );
    assert_eq!(
        check_head_mask(&Vec::new(), Head::Head3, 0x8000),
        Err(BuildError::ConfigurationInconsistent { head: Head::Head3, display: 0 })
    );
    // the same check serves every head
    assert_eq!(check_head_mask(&displays, Head::Head0, 0b10_0000_0011), Ok(0b10_0000_0011));
    assert_eq!(check_head_mask(&displays, Head::TV, 0b10_0000_1111), Ok(0b10_0000_1111));
    assert!(check_head_mask(&displays, Head::TV, 0b1_0000).is_err());
}

#[test]
fn packing_checks_the_masks_of_the_third_and_fourth_head() {
    let displays = vec![
        display(DisplayType::Digital, &[0, 1], 0b0011),
        display(DisplayType::Digital, &[2], 0b0100),
        display(DisplayType::Digital, &[3], 0b1000),
    ];
    let mut nvcap = default_nvcap(&displays);
    nvcap.dcb_2_mask = 0b0100;
    nvcap.dcb_3_mask = 0b1000;
    let bytes = create_nvcap_value(&nvcap, &displays, &vec![], &vec![0], &vec![0]).unwrap();
    assert_eq!(
        bytes,
        vec![
            0x05, 0x00, 0x00, 0x00, 0x00, 0x00, 0x03, 0x00, 0x03, 0x00, 0x04, 0x00, 0x08, 0x00,
            0x00, 0x0f, 0x00, 0x00, 0x00, 0x00
        ]
    );
    nvcap.dcb_3_mask = 0b0100;
    assert_eq!(
        create_nvcap_value(&nvcap, &displays, &vec![], &vec![0], &vec![0]),
        Err(BuildError::ConfigurationInconsistent { head: Head::Head3, display: 1 })
    );
    nvcap.dcb_2_mask = 0b0001;
    assert_eq!(
        create_nvcap_value(&nvcap, &displays, &vec![], &vec![0], &vec![0]),
        Err(BuildError::ConfigurationInconsistent { head: Head::Head2, display: 0 })
    );
    // a bad choice for one of the first heads is reported first
    assert_eq!(
        create_nvcap_value(&nvcap, &displays, &vec![], &vec![], &vec![2]),
        Err(BuildError::ConfigurationInconsistent { head: Head::Head1, display: 2 })
    );
}

#[test]
fn packs_the_fields_in_order() {
    let nvcap = NVCAP {
        version: 0x04,
        is_mobile: true,
        is_composite: false,
        unknown_1: 0xaa,
        dcb_tv_mask: 0x0102,
        dcb_0_mask: 0x0304,
        dcb_1_mask: 0x0506,
        dcb_2_mask: 0x0708,
        dcb_3_mask: 0x090a,
        script_based_power_and_backlight: true,
        field_f: 0x07,
        edid_bitness: 0xbb,
        unknown_2: [0xc1, 0xc2, 0xc3],
    };
    let bytes = nvcap_to_bytes(&nvcap);
    assert_eq!(bytes.len(), NVCAP_LEN);
    assert_eq!(
        bytes,
        vec![
            0x04, 0x01, 0x00, 0xaa, 0x02, 0x01, 0x04, 0x03, 0x06, 0x05, 0x08, 0x07, 0x0a, 0x09,
            0x01, 0x07, 0xbb, 0xc1, 0xc2, 0xc3
        ]
    );
}

#[test]
fn packs_a_desktop_configuration() {
    let displays = desktop();
    let nvcap = default_nvcap(&displays);
    let bytes = create_nvcap_value(&nvcap, &displays, &vec![], &vec![0, 1], &vec![2]).unwrap();
    assert_eq!(
        bytes,
        vec![
            0x05, 0x00, 0x00, 0x00, 0x00, 0x00, 0x07, 0x00, 0x18, 0x00, 0x00, 0x00, 0x00, 0x00,
            0x00, 0x0f, 0x00, 0x00, 0x00, 0x00
        ]
    );
    // packing does not change the configuration it is given
    assert_eq!(nvcap, default_nvcap(&displays));
}

#[test]
fn packs_with_nothing_assigned() {
    let displays = desktop();
    let bytes =
        create_nvcap_value(&default_nvcap(&displays), &displays, &vec![], &vec![], &vec![])
            .unwrap();
    let mut expected = vec![0u8; 20];
    expected[0] = 5;
    expected[15] = 0x0f;
    assert_eq!(bytes, expected);
}

#[test]
fn packing_refuses_a_display_on_a_head_it_lacks() {
    let displays = desktop();
    let nvcap = default_nvcap(&displays);
    // display 1 can only be driven by the first head
    assert_eq!(
        create_nvcap_value(&nvcap, &displays, &vec![], &vec![0], &vec![0, 1]),
        Err(BuildError::ConfigurationInconsistent { head: Head::Head1, display: 1 })
    );
    // display 2 can only be driven by the second head
    assert_eq!(
        create_nvcap_value(&nvcap, &displays, &vec![], &vec![2], &vec![]),
        Err(BuildError::ConfigurationInconsistent { head: Head::Head0, display: 2 })
    );
}

#[test]
fn packing_reports_the_first_bad_assignment() {
    let displays = desktop();
    let nvcap = default_nvcap(&displays);
    assert_eq!(
        create_nvcap_value(&nvcap, &displays, &vec![1, 9, 8], &vec![2], &vec![1]),
        Err(BuildError::ConfigurationInconsistent { head: Head::TV, display: 9 })
    );
    assert_eq!(
        create_nvcap_value(&nvcap, &displays, &vec![1], &vec![0, 2, 7], &vec![1]),
        Err(BuildError::ConfigurationInconsistent { head: Head::Head0, display: 2 })
    );
    assert_eq!(
        assign_heads(&nvcap, &displays, &vec![], &vec![], &vec![2, 1, 1]),
        Err(BuildError::ConfigurationInconsistent { head: Head::Head1, display: 1 })
    );
}

#[test]
fn the_composite_head_takes_any_display() {
    let displays = vec![display(DisplayType::TV, &[4], 0), display(DisplayType::Analog, &[1], 0)];
    let bytes =
        create_nvcap_value(&default_nvcap(&displays), &displays, &vec![0, 1], &vec![], &vec![])
            .unwrap();
    assert_eq!(bytes[2], 1);
    assert_eq!(&bytes[4..6], &[0b0001_0010, 0]);
}
