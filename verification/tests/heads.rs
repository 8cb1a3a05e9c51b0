use nvcap_calculator::heads::{filter_displays, select_head, supported_heads, toggle_display};
use nvcap_calculator::nvcap::{create_nvcap_value, default_nvcap, BuildError, Head};
use nvcap_calculator::util::{Display, DisplayType};

fn display(disp_type: DisplayType, entries: &[u8], head_bitmask: u32) -> Display {
    Display { disp_type, dcb_entries: entries.to_vec(), head_bitmask }
}

fn laptop() -> Vec<Display> {
    vec![
        display(DisplayType::LVDS, &[0], 0b0001),
        display(DisplayType::TV, &[1], 0b0011),
        display(DisplayType::Digital, &[2, 3], 0b0010),
        display(DisplayType::Analog, &[4], 0b0001),
        display(DisplayType::LVDS, &[5], 0b0010),
        display(DisplayType::DVI, &[6, 7], 0b0011),
    ]
}

#[test]
fn laptop_displays_go_to_their_heads() {
    let (mut tv, mut h0, mut h1) = (Vec::new(), Vec::new(), Vec::new());
    filter_displays(&laptop(), &mut tv, &mut h0, &mut h1);
    assert_eq!(tv, vec![1]);
    assert_eq!(h0, vec![0]);
    // the analog display has no bit for the second head and stays unassigned
    assert_eq!(h1, vec![2, 4, 5]);
}

#[test]
fn desktop_displays_are_left_to_the_user() {
    let displays = vec![
        display(DisplayType::Digital, &[0, 1], 0b0011),
        display(DisplayType::TV, &[2], 0b0001),
        display(DisplayType::Analog, &[3], 0b0011),
        display(DisplayType::TV, &[4], 0b0001),
    ];
    let (mut tv, mut h0, mut h1) = (Vec::new(), Vec::new(), Vec::new());
    filter_displays(&displays, &mut tv, &mut h0, &mut h1);
    assert_eq!(tv, vec![1, 3]);
    assert!(h0.is_empty());
    assert!(h1.is_empty());
}

#[test]
fn automatic_assignment_appends() {
    let (mut tv, mut h0, mut h1) = (vec![7], vec![8], vec![9]);
    filter_displays(&laptop(), &mut tv, &mut h0, &mut h1);
    assert_eq!(tv, vec![7, 1]);
    assert_eq!(h0, vec![8, 0]);
    assert_eq!(h1, vec![9, 2, 4, 5]);
    filter_displays(&Vec::new(), &mut tv, &mut h0, &mut h1);
    assert_eq!(tv, vec![7, 1]);
}

#[test]
fn toggling_adds_and_removes() {
    let mut head = Vec::new();
    toggle_display(&mut head, 3);
    assert_eq!(head, vec![3]);
    toggle_display(&mut head, 1);
    assert_eq!(head, vec![3, 1]);
    toggle_display(&mut head, 3);
    assert_eq!(head, vec![1]);
    toggle_display(&mut head, 1);
    assert!(head.is_empty());
}

#[test]
fn toggling_removes_the_first_mention() {
    let mut head = vec![4, 2, 4, 5];
    toggle_display(&mut head, 4);
    assert_eq!(head, vec![2, 4, 5]);
}

#[test]
fn selecting_a_head_the_display_supports() {
    let displays = laptop();
    let (mut tv, mut h0, mut h1) = (Vec::new(), Vec::new(), Vec::new());
    assert!(select_head(&displays, &mut tv, &mut h0, &mut h1, 1, Head::Head0));
    assert!(select_head(&displays, &mut tv, &mut h0, &mut h1, 6, Head::Head0));
    assert!(select_head(&displays, &mut tv, &mut h0, &mut h1, 3, Head::Head1));
    assert!(select_head(&displays, &mut tv, &mut h0, &mut h1, 4, Head::TV));
    assert_eq!(h0, vec![0, 5]);
    assert_eq!(h1, vec![2]);
    assert_eq!(tv, vec![3]);
    assert!(select_head(&displays, &mut tv, &mut h0, &mut h1, 1, Head::Head0));
    assert_eq!(h0, vec![5]);
    assert_eq!(h1, vec![2]);
    assert_eq!(tv, vec![3]);
}

#[test]
fn selecting_a_head_the_display_lacks_changes_nothing() {
    let displays = laptop();
    let (mut tv, mut h0, mut h1) = (vec![1], vec![0], vec![2]);
    assert!(!select_head(&displays, &mut tv, &mut h0, &mut h1, 1, Head::Head1));
    assert!(!select_head(&displays, &mut tv, &mut h0, &mut h1, 3, Head::Head0));
    assert!(!select_head(&displays, &mut tv, &mut h0, &mut h1, 0, Head::Head0));
    assert!(!select_head(&displays, &mut tv, &mut h0, &mut h1, 7, Head::Head1));
    assert!(!select_head(&displays, &mut tv, &mut h0, &mut h1, usize::MAX, Head::TV));
    // no display is chosen for the third head or the fourth
    assert!(!select_head(&displays, &mut tv, &mut h0, &mut h1, 1, Head::Head2));
    assert!(!select_head(&displays, &mut tv, &mut h0, &mut h1, 6, Head::Head3));
    assert_eq!((tv, h0, h1), (vec![1], vec![0], vec![2]));
}

#[test]
fn the_composite_head_needs_a_tv_display() {
    let displays = vec![display(DisplayType::Digital, &[0], 0b0011)];
    let (mut tv, mut h0, mut h1) = (Vec::new(), Vec::new(), Vec::new());
    assert!(!select_head(&displays, &mut tv, &mut h0, &mut h1, 1, Head::TV));
    assert!(tv.is_empty());
    // with a TV display on the card any display may go to the composite head
    let displays = laptop();
    assert!(select_head(&displays, &mut tv, &mut h0, &mut h1, 1, Head::TV));
    assert_eq!(tv, vec![0]);
}

#[test]
fn heads_that_a_mask_supports() {
    assert_eq!(supported_heads(0), Vec::<u8>::new());
    assert_eq!(supported_heads(0b0001), vec![1]);
    assert_eq!(supported_heads(0b0011), vec![1, 2]);
    assert_eq!(supported_heads(0b1010), vec![2, 4]);
    assert_eq!(supported_heads(0b1111), vec![1, 2, 3, 4]);
    assert_eq!(supported_heads(0xffff_fff4), vec![3]);
}

#[test]
fn chosen_heads_can_be_packed() {
    let displays = laptop();
    let (mut tv, mut h0, mut h1) = (Vec::new(), Vec::new(), Vec::new());
    filter_displays(&displays, &mut tv, &mut h0, &mut h1);
    for number in 0..8 {
        for head in [Head::TV, Head::Head0, Head::Head1, Head::Head2, Head::Head3] {
            select_head(&displays, &mut tv, &mut h0, &mut h1, number, head);
            assert!(create_nvcap_value(&default_nvcap(&displays), &displays, &tv, &h0, &h1)
                .is_ok());
        }
    }
    assert_eq!(tv, vec![0, 2, 3, 4, 5]);
    assert_eq!(h0, vec![1, 3, 5]);
    assert_eq!(h1, vec![1]);
}

#[test]
fn a_display_with_a_late_entry_is_chosen_but_not_packed() {
    let displays = vec![display(DisplayType::Digital, &[16], 0b0011)];
    let (mut tv, mut h0, mut h1) = (Vec::new(), Vec::new(), Vec::new());
    assert!(select_head(&displays, &mut tv, &mut h0, &mut h1, 1, Head::Head0));
    assert_eq!(h0, vec![0]);
    assert_eq!(
        create_nvcap_value(&default_nvcap(&displays), &displays, &tv, &h0, &h1),
        Err(BuildError::ConfigurationInconsistent { head: Head::Head0, display: 0 })
    );
}
