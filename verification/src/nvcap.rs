//! The NVCAP value: its fields, their defaults for a card, and the packing
//! of a configuration and the chosen head assignments into its 20 bytes.

use crate::util::{display_views, has_kind, has_tv, is_mobile, Display, DisplayType, DisplayView};
use vstd::prelude::*;

verus! {

/// The NVCAP version of cards of the 8000 series and later.
pub const NVCAP_VERSION_MODERN: u8 = 0x5;

/// The bit of a display's head mask that stands for the first head.
pub const HEAD_0_BITMASK: u32 = 0x1;

/// The bit of a display's head mask that stands for the second head.
pub const HEAD_1_BITMASK: u32 = 0x2;

/// The bit of a display's head mask that stands for the third head.
pub const HEAD_2_BITMASK: u32 = 0x4;

/// The bit of a display's head mask that stands for the fourth head.
pub const HEAD_3_BITMASK: u32 = 0x8;

/// The value of field F on cards of the 300 series and later.
pub const FIELD_F_MODERN: u8 = 0x0f;

/// The number of bytes of a packed NVCAP value.
pub const NVCAP_LEN: usize = 20;

/// The number of entry positions that a head mask has a bit for.
pub const HEAD_MASK_BITS: u8 = 16;

/// The configuration that is packed into an NVCAP value, field by field in
/// the order of the packed bytes.
#[derive(Debug, Clone, Copy, PartialEq, Eq)]
pub struct NVCAP {
    pub version: u8,
    pub is_mobile: bool,
    pub is_composite: bool,
    pub unknown_1: u8,
    pub dcb_tv_mask: u16,
    pub dcb_0_mask: u16,
    pub dcb_1_mask: u16,
    pub dcb_2_mask: u16,
    pub dcb_3_mask: u16,
    pub script_based_power_and_backlight: bool,
    pub field_f: u8,
    pub edid_bitness: u8,
    pub unknown_2: [u8; 3],
}

/// A head of the card. Displays are chosen for the composite head and for
/// the first two heads; the masks of the other two are part of the
/// configuration.
#[derive(Debug, Clone, Copy, PartialEq, Eq, Structural)]
pub enum Head {
    /// The head of the composite output.
    TV,
    /// The first head, which users know as head 1.
    Head0,
    /// The second head, which users know as head 2.
    Head1,
    /// The third head.
    Head2,
    /// The fourth head.
    Head3,
}

/// Why a configuration cannot be packed.
#[derive(Debug, Clone, Copy, PartialEq, Eq, Structural)]
pub enum BuildError {
    /// The mask of `head` would name an entry of the display with index
    /// `display`, and that display cannot be on the head.
    ///
    /// For a display chosen for a head: the display list has no such
    /// display, the display's head mask lacks the bit of that head, or one
    /// of its entries has no bit in a head mask. For a mask that the
    /// configuration holds: a bit of the mask is the position of no entry of
    /// a display that the head can drive; `display` is then the first display
    /// that holds the position, or the length of the display list where none
    /// does.
    ConfigurationInconsistent { head: Head, display: usize },
}

/// The configuration that a card with the given displays starts with.
pub open spec fn default_nvcap_spec(displays: Seq<DisplayView>) -> NVCAP {
    NVCAP {
        version: NVCAP_VERSION_MODERN,
        is_mobile: has_kind(displays, DisplayType::LVDS),
        is_composite: has_kind(displays, DisplayType::TV),
        unknown_1: 0,
        dcb_tv_mask: 0,
        dcb_0_mask: 0,
        dcb_1_mask: 0,
        dcb_2_mask: 0,
        dcb_3_mask: 0,
        script_based_power_and_backlight: false,
        field_f: FIELD_F_MODERN,
        edid_bitness: 0,
        unknown_2: [0u8, 0u8, 0u8],
    }
}

/// Makes the configuration that a card with the given displays starts with:
/// mobile if and only if some display is LVDS, composite if and only if
/// some display is TV, no display on any head.
pub fn default_nvcap(displays: &Vec<Display>) -> (nvcap: NVCAP)
    ensures
        nvcap == default_nvcap_spec(display_views(displays@)),
        nvcap.is_mobile == has_kind(display_views(displays@), DisplayType::LVDS),
        nvcap.is_composite == has_kind(display_views(displays@), DisplayType::TV),
{
    NVCAP {
        version: NVCAP_VERSION_MODERN,
        is_mobile: is_mobile(displays),
        is_composite: has_tv(displays),
        unknown_1: 0,
        dcb_tv_mask: 0,
        dcb_0_mask: 0,
        dcb_1_mask: 0,
        dcb_2_mask: 0,
        dcb_3_mask: 0,
        script_based_power_and_backlight: false,
        field_f: FIELD_F_MODERN,
        edid_bitness: 0,
        unknown_2: [0u8, 0u8, 0u8],
    }
}

/// Whether a display with the head mask `head_bitmask` can be driven by
/// `head`. The composite head has no bit in the mask and takes any display.
pub open spec fn head_permits(head_bitmask: u32, head: Head) -> bool {
    match head {
        Head::TV => true,
        Head::Head0 => head_bitmask & HEAD_0_BITMASK != 0,
        Head::Head1 => head_bitmask & HEAD_1_BITMASK != 0,
        Head::Head2 => head_bitmask & HEAD_2_BITMASK != 0,
        Head::Head3 => head_bitmask & HEAD_3_BITMASK != 0,
    }
}

/// Whether every position of the list has a bit in a head mask.
pub open spec fn positions_fit(positions: Seq<u8>) -> bool {
    forall|k: int| 0 <= k < positions.len() ==> #[trigger] positions[k] < HEAD_MASK_BITS
}

/// Whether the display with index `display` can be assigned to `head`: it
/// is in the list, its head mask permits the head, and each of its entries
/// has a bit in a head mask.
pub open spec fn assignable(displays: Seq<DisplayView>, head: Head, display: usize) -> bool {
    &&& display < displays.len()
    &&& head_permits(displays[display as int].head_bitmask, head)
    &&& positions_fit(displays[display as int].dcb_entries)
}

/// The first place from `from` on in `chosen` that names a display which
/// cannot be assigned to `head`, or the length of `chosen` when all can.
pub open spec fn first_unassignable(
    displays: Seq<DisplayView>,
    head: Head,
    chosen: Seq<usize>,
    from: int,
) -> int
    decreases chosen.len() - from,
{
    if from < 0 || from >= chosen.len() || !assignable(displays, head, chosen[from]) {
        from
    } else {
        first_unassignable(displays, head, chosen, from + 1)
    }
}

/// The bit of an entry position in a head mask.
pub open spec fn entry_bit(position: u8) -> u16 {
    if position < HEAD_MASK_BITS {
        1u16 << position
    } else {
        0
    }
}

/// The mask with the bits of the given entry positions.
pub open spec fn entries_mask(positions: Seq<u8>) -> u16
    decreases positions.len(),
{
    if positions.len() == 0 {
        0
    } else {
        entries_mask(positions.drop_last()) | entry_bit(positions.last())
    }
}

/// The mask with the bits of the entries of the display with index
/// `display`; no bit for an index outside the list.
pub open spec fn display_mask(displays: Seq<DisplayView>, display: usize) -> u16 {
    if display < displays.len() {
        entries_mask(displays[display as int].dcb_entries)
    } else {
        0
    }
}

/// The mask of a head: the bits of the entries of every display chosen for
/// it.
pub open spec fn head_mask(displays: Seq<DisplayView>, chosen: Seq<usize>) -> u16
    decreases chosen.len(),
{
    if chosen.len() == 0 {
        0
    } else {
        head_mask(displays, chosen.drop_last()) | display_mask(displays, chosen.last())
    }
}

/// Whether `mask` has the bit of the entry position `position`.
pub open spec fn mask_has(mask: u16, position: u8) -> bool {
    position < HEAD_MASK_BITS && mask & (1u16 << position) != 0
}

proof fn lemma_mask_has_or(a: u16, b: u16, position: u8)
    ensures
        mask_has(a | b, position) == (mask_has(a, position) || mask_has(b, position)),
        !mask_has(0, position),
{
    if position < 16 {
        assert(((a | b) & (1u16 << position) != 0) == ((a & (1u16 << position) != 0) || (b & (1u16
            << position) != 0))) by (bit_vector)
            requires
                position < 16,
        ;
        assert(0u16 & (1u16 << position) == 0) by (bit_vector);
    }
}

proof fn lemma_mask_has_bit(of: u8, position: u8)
    ensures
        mask_has(entry_bit(of), position) == (of == position && position < HEAD_MASK_BITS),
{
    if position < 16 {
        if of < 16 {
            assert(((1u16 << of) & (1u16 << position) != 0) == (of == position)) by (bit_vector)
                requires
                    of < 16,
                    position < 16,
            ;
        } else {
            assert(0u16 & (1u16 << position) == 0) by (bit_vector);
        }
    }
}

/// The mask of a list of entry positions has the bit of a position exactly
/// when the position is in the list and has a bit at all.
pub proof fn lemma_entries_mask(positions: Seq<u8>, position: u8)
    ensures
        mask_has(entries_mask(positions), position) == (position < HEAD_MASK_BITS
            && positions.contains(position)),
    decreases positions.len(),
{
    if positions.len() == 0 {
        lemma_mask_has_or(0, 0, position);
    } else {
        let before = positions.drop_last();
        lemma_entries_mask(before, position);
        lemma_mask_has_or(entries_mask(before), entry_bit(positions.last()), position);
        lemma_mask_has_bit(positions.last(), position);
        if before.contains(position) {
            let k = before.index_of(position);
            assert(positions[k] == position);
        }
        if positions.contains(position) && positions.last() != position {
            let k = positions.index_of(position);
            assert(before[k] == position);
        }
        if positions.last() == position {
            assert(positions[positions.len() - 1] == position);
        }
    }
}

/// Whether some display chosen for a head is in the list and holds the
/// entry position `position`.
pub open spec fn chosen_holds(displays: Seq<DisplayView>, chosen: Seq<usize>, position: u8) -> bool {
    exists|k: int|
        0 <= k < chosen.len() && (#[trigger] chosen[k]) < displays.len()
            && displays[chosen[k] as int].dcb_entries.contains(position)
}

/// The mask of a head has the bit of an entry position exactly when a
/// display chosen for the head holds that position and the position has a
/// bit at all.
pub proof fn lemma_head_mask(displays: Seq<DisplayView>, chosen: Seq<usize>, position: u8)
    ensures
        mask_has(head_mask(displays, chosen), position) == (position < HEAD_MASK_BITS
            && chosen_holds(displays, chosen, position)),
    decreases chosen.len(),
{
    if chosen.len() == 0 {
        lemma_mask_has_or(0, 0, position);
    } else {
        let before = chosen.drop_last();
        let last = chosen.last();
        lemma_head_mask(displays, before, position);
        lemma_mask_has_or(head_mask(displays, before), display_mask(displays, last), position);
        if last < displays.len() {
            lemma_entries_mask(displays[last as int].dcb_entries, position);
        } else {
            lemma_mask_has_or(0, 0, position);
        }
        if chosen_holds(displays, before, position) {
            let k = choose|k: int|
                0 <= k < before.len() && (#[trigger] before[k]) < displays.len()
                    && displays[before[k] as int].dcb_entries.contains(position);
            assert(chosen[k] == before[k]);
        }
        if chosen_holds(displays, chosen, position) {
            let k = choose|k: int|
                0 <= k < chosen.len() && (#[trigger] chosen[k]) < displays.len()
                    && displays[chosen[k] as int].dcb_entries.contains(position);
            if k < before.len() {
                assert(before[k] == chosen[k]);
            }
        }
        if last < displays.len() && displays[last as int].dcb_entries.contains(position) {
            assert(chosen[chosen.len() - 1] == last);
        }
    }
}

/// `first_unassignable` is the least place from `from` on that names a
/// display which cannot be assigned.
pub proof fn lemma_first_unassignable(
    displays: Seq<DisplayView>,
    head: Head,
    chosen: Seq<usize>,
    from: int,
)
    requires
        0 <= from <= chosen.len(),
    ensures
        from <= first_unassignable(displays, head, chosen, from) <= chosen.len(),
        forall|k: int|
            from <= k < first_unassignable(displays, head, chosen, from) ==> assignable(
                displays,
                head,
                #[trigger] chosen[k],
            ),
        first_unassignable(displays, head, chosen, from) < chosen.len() ==> !assignable(
            displays,
            head,
            chosen[first_unassignable(displays, head, chosen, from)],
        ),
    decreases chosen.len() - from,
{
    if from < chosen.len() && assignable(displays, head, chosen[from]) {
        lemma_first_unassignable(displays, head, chosen, from + 1);
    }
}

proof fn lemma_first_unassignable_is(
    displays: Seq<DisplayView>,
    head: Head,
    chosen: Seq<usize>,
    from: int,
    found: int,
)
    requires
        0 <= from <= found <= chosen.len(),
        forall|k: int| from <= k < found ==> assignable(displays, head, #[trigger] chosen[k]),
        found == chosen.len() || !assignable(displays, head, chosen[found]),
    ensures
        first_unassignable(displays, head, chosen, from) == found,
    decreases found - from,
{
    if from < found {
        lemma_first_unassignable_is(displays, head, chosen, from + 1, found);
    }
}

/// The mask of a head, or the first display chosen for it that cannot be
/// assigned to it.
pub open spec fn head_mask_spec(displays: Seq<DisplayView>, head: Head, chosen: Seq<usize>) -> Result<
    u16,
    BuildError,
> {
    let bad = first_unassignable(displays, head, chosen, 0);
    if bad < chosen.len() {
        Err(BuildError::ConfigurationInconsistent { head, display: chosen[bad] })
    } else {
        Ok(head_mask(displays, chosen))
    }
}

/// Whether the head mask of a display permits `head`.
pub fn head_allowed(head_bitmask: u32, head: Head) -> (allowed: bool)
    ensures
        allowed == head_permits(head_bitmask, head),
{
    match head {
        Head::TV => true,
        Head::Head0 => head_bitmask & HEAD_0_BITMASK != 0,
        Head::Head1 => head_bitmask & HEAD_1_BITMASK != 0,
        Head::Head2 => head_bitmask & HEAD_2_BITMASK != 0,
        Head::Head3 => head_bitmask & HEAD_3_BITMASK != 0,
    }
}

/// The mask of the entries of one display, or `None` when one of them has
/// no bit in a head mask.
fn create_display_mask(display: &Display) -> (mask: Option<u16>)
    ensures
        mask is Some == positions_fit(display@.dcb_entries),
        mask matches Some(m) ==> m == entries_mask(display@.dcb_entries),
{
    let mut mask: u16 = 0;
    let mut i: usize = 0;
    while i < display.dcb_entries.len()
        invariant
            i <= display.dcb_entries.len(),
            positions_fit(display@.dcb_entries.take(i as int)),
            mask == entries_mask(display@.dcb_entries.take(i as int)),
        decreases display.dcb_entries.len() - i,
    {
        let position: u8 = display.dcb_entries[i];
        if position >= HEAD_MASK_BITS {
            return None;
        }
        proof {
            let next = display@.dcb_entries.take(i as int + 1);
            assert(next.drop_last() =~= display@.dcb_entries.take(i as int));
            assert forall|k: int| 0 <= k < next.len() implies #[trigger] next[k]
                < HEAD_MASK_BITS by {
                if k < i {
                    assert(display@.dcb_entries.take(i as int)[k] == next[k]);
                }
            }
        }
        mask = mask | (1u16 << position);
        i += 1;
    }
    assert(display@.dcb_entries.take(i as int) =~= display@.dcb_entries);
    Some(mask)
}

/// Computes the mask of a head from the displays chosen for it.
///
/// Fails at the first chosen display that cannot be assigned to the head.
pub fn create_head_mask(displays: &Vec<Display>, head: Head, chosen: &Vec<usize>) -> (res: Result<
    u16,
    BuildError,
>)
    ensures
        res == head_mask_spec(display_views(displays@), head, chosen@),
{
    let ghost views = display_views(displays@);
    let mut mask: u16 = 0;
    let mut i: usize = 0;
    while i < chosen.len()
        invariant
            i <= chosen.len(),
            views == display_views(displays@),
            forall|k: int| 0 <= k < i ==> assignable(views, head, #[trigger] chosen@[k]),
            mask == head_mask(views, chosen@.take(i as int)),
        decreases chosen.len() - i,
    {
        let display: usize = chosen[i];
        if display >= displays.len() || !head_allowed(displays[display].head_bitmask, head) {
            proof {
                lemma_first_unassignable_is(views, head, chosen@, 0, i as int);
            }
            return Err(BuildError::ConfigurationInconsistent { head, display });
        }
        let bits: u16 = match create_display_mask(&displays[display]) {
            Some(bits) => bits,
            None => {
                proof {
                    lemma_first_unassignable_is(views, head, chosen@, 0, i as int);
                }
                return Err(BuildError::ConfigurationInconsistent { head, display });
            },
        };
        proof {
            let next = chosen@.take(i as int + 1);
            assert(next.drop_last() =~= chosen@.take(i as int));
            assert(next.last() == display);
        }
        mask = mask | bits;
        i += 1;
    }
    proof {
        assert(chosen@.take(i as int) =~= chosen@);
        lemma_first_unassignable_is(views, head, chosen@, 0, i as int);
    }
    Ok(mask)
}

/// Whether `head` can drive a display that holds the entry position
/// `position`.
pub open spec fn position_permitted(displays: Seq<DisplayView>, head: Head, position: u8) -> bool {
    exists|d: int|
        0 <= d < displays.len() && (#[trigger] displays[d]).dcb_entries.contains(position)
            && head_permits(displays[d].head_bitmask, head)
}

/// Whether every bit of `mask` is the position of an entry of a display
/// that `head` can drive.
pub open spec fn mask_permitted(displays: Seq<DisplayView>, head: Head, mask: u16) -> bool {
    forall|position: u8| #[trigger]
        mask_has(mask, position) ==> position_permitted(displays, head, position)
}

/// The first display from `from` on that holds the entry position
/// `position`, or the length of the list when none does.
pub open spec fn first_holder(displays: Seq<DisplayView>, position: u8, from: int) -> int
    decreases displays.len() - from,
{
    if from < 0 || from >= displays.len() || displays[from].dcb_entries.contains(position) {
        from
    } else {
        first_holder(displays, position, from + 1)
    }
}

/// Whether `mask` has the bit of `position` and `head` can drive no display
/// that holds that position.
pub open spec fn stray_bit(displays: Seq<DisplayView>, head: Head, mask: u16, position: int) -> bool {
    0 <= position < HEAD_MASK_BITS && mask_has(mask, position as u8) && !position_permitted(
        displays,
        head,
        position as u8,
    )
}

/// The lowest stray bit of `mask` from `from` on, or the number of bits of
/// a mask when there is none.
pub open spec fn first_stray(displays: Seq<DisplayView>, head: Head, mask: u16, from: int) -> int
    decreases HEAD_MASK_BITS - from,
{
    if from < 0 || from >= HEAD_MASK_BITS || stray_bit(displays, head, mask, from) {
        from
    } else {
        first_stray(displays, head, mask, from + 1)
    }
}

/// A mask that the configuration holds for a head, as it is packed: the
/// mask itself where each of its bits is the position of an entry of a
/// display that the head can drive, else an error for its lowest stray bit.
pub open spec fn held_mask_spec(displays: Seq<DisplayView>, head: Head, mask: u16) -> Result<
    u16,
    BuildError,
> {
    let stray = first_stray(displays, head, mask, 0);
    if stray < HEAD_MASK_BITS {
        Err(
            BuildError::ConfigurationInconsistent {
                head,
                display: first_holder(displays, stray as u8, 0) as usize,
            },
        )
    } else {
        Ok(mask)
    }
}

/// `first_stray` is the lowest stray bit from `from` on.
pub proof fn lemma_first_stray(displays: Seq<DisplayView>, head: Head, mask: u16, from: int)
    requires
        0 <= from <= HEAD_MASK_BITS,
    ensures
        from <= first_stray(displays, head, mask, from) <= HEAD_MASK_BITS,
        forall|k: int|
            from <= k < first_stray(displays, head, mask, from) ==> !#[trigger] stray_bit(
                displays,
                head,
                mask,
                k,
            ),
        first_stray(displays, head, mask, from) < HEAD_MASK_BITS ==> stray_bit(
            displays,
            head,
            mask,
            first_stray(displays, head, mask, from),
        ),
    decreases HEAD_MASK_BITS - from,
{
    if from < HEAD_MASK_BITS && !stray_bit(displays, head, mask, from) {
        lemma_first_stray(displays, head, mask, from + 1);
    }
}

proof fn lemma_first_stray_is(
    displays: Seq<DisplayView>,
    head: Head,
    mask: u16,
    from: int,
    found: int,
)
    requires
        0 <= from <= found <= HEAD_MASK_BITS,
        forall|k: int| from <= k < found ==> !#[trigger] stray_bit(displays, head, mask, k),
        found == HEAD_MASK_BITS || stray_bit(displays, head, mask, found),
    ensures
        first_stray(displays, head, mask, from) == found,
    decreases found - from,
{
    if from < found {
        lemma_first_stray_is(displays, head, mask, from + 1, found);
    }
}

proof fn lemma_first_holder_is(displays: Seq<DisplayView>, position: u8, from: int, found: int)
    requires
        0 <= from <= found <= displays.len(),
        forall|k: int| from <= k < found ==> !(#[trigger] displays[k]).dcb_entries.contains(position),
        found == displays.len() || displays[found].dcb_entries.contains(position),
    ensures
        first_holder(displays, position, from) == found,
    decreases found - from,
{
    if from < found {
        lemma_first_holder_is(displays, position, from + 1, found);
    }
}

/// A held mask is packed exactly when each of its bits is the position of
/// an entry of a display that the head can drive.
pub proof fn lemma_held_mask_ok(displays: Seq<DisplayView>, head: Head, mask: u16)
    ensures
        held_mask_spec(displays, head, mask) is Ok <==> mask_permitted(displays, head, mask),
{
    lemma_first_stray(displays, head, mask, 0);
    let stray = first_stray(displays, head, mask, 0);
    if stray < HEAD_MASK_BITS {
        assert(mask_has(mask, stray as u8));
    } else {
        assert forall|position: u8| #[trigger] mask_has(mask, position) implies position_permitted(
            displays,
            head,
            position,
        ) by {
            assert(!stray_bit(displays, head, mask, position as int));
        }
    }
}

fn holds_position(display: &Display, position: u8) -> (held: bool)
    ensures
        held == display@.dcb_entries.contains(position),
{
    let mut i: usize = 0;
    while i < display.dcb_entries.len()
        invariant
            i <= display.dcb_entries.len(),
            forall|k: int| 0 <= k < i ==> display@.dcb_entries[k] != position,
        decreases display.dcb_entries.len() - i,
    {
        if display.dcb_entries[i] == position {
            assert(display@.dcb_entries[i as int] == position);
            return true;
        }
        i += 1;
    }
    false
}

fn find_holder(displays: &Vec<Display>, position: u8) -> (at: usize)
    ensures
        at == first_holder(display_views(displays@), position, 0),
        at <= displays.len(),
{
    let ghost views = display_views(displays@);
    let mut at: usize = 0;
    while at < displays.len()
        invariant
            at <= displays.len(),
            views == display_views(displays@),
            forall|k: int| 0 <= k < at ==> !(#[trigger] views[k]).dcb_entries.contains(position),
        decreases displays.len() - at,
    {
        if holds_position(&displays[at], position) {
            proof {
                assert(views[at as int] == displays@[at as int]@);
                lemma_first_holder_is(views, position, 0, at as int);
            }
            return at;
        }
        assert(views[at as int] == displays@[at as int]@);
        at += 1;
    }
    proof {
        lemma_first_holder_is(views, position, 0, at as int);
    }
    at
}

fn position_allowed(displays: &Vec<Display>, head: Head, position: u8) -> (allowed: bool)
    ensures
        allowed == position_permitted(display_views(displays@), head, position),
{
    let ghost views = display_views(displays@);
    let mut d: usize = 0;
    while d < displays.len()
        invariant
            d <= displays.len(),
            views == display_views(displays@),
            forall|k: int|
                0 <= k < d ==> !((#[trigger] views[k]).dcb_entries.contains(position)
                    && head_permits(views[k].head_bitmask, head)),
        decreases displays.len() - d,
    {
        assert(views[d as int] == displays@[d as int]@);
        if holds_position(&displays[d], position) && head_allowed(displays[d].head_bitmask, head) {
            return true;
        }
        d += 1;
    }
    false
}

/// Checks a mask that the configuration holds for a head against the
/// displays: hands the mask back where each of its bits is the position of
/// an entry of a display that the head can drive, and fails for its lowest
/// bit that is not.
pub fn check_head_mask(displays: &Vec<Display>, head: Head, mask: u16) -> (res: Result<
    u16,
    BuildError,
>)
    ensures
        res == held_mask_spec(display_views(displays@), head, mask),
{
    let ghost views = display_views(displays@);
    let mut position: u8 = 0;
    while position < HEAD_MASK_BITS
        invariant
            position <= HEAD_MASK_BITS,
            views == display_views(displays@),
            forall|k: int| 0 <= k < position ==> !#[trigger] stray_bit(views, head, mask, k),
        decreases HEAD_MASK_BITS - position,
    {
        if mask & (1u16 << position) != 0 && !position_allowed(displays, head, position) {
            proof {
                lemma_first_stray_is(views, head, mask, 0, position as int);
            }
            let display = find_holder(displays, position);
            return Err(BuildError::ConfigurationInconsistent { head, display });
        }
        position += 1;
    }
    proof {
        lemma_first_stray_is(views, head, mask, 0, position as int);
    }
    Ok(mask)
}

/// The configuration `nvcap` with the masks of the composite head and of
/// the first two heads replaced.
pub open spec fn with_head_masks(nvcap: NVCAP, tv: u16, head_0: u16, head_1: u16) -> NVCAP {
    NVCAP { dcb_tv_mask: tv, dcb_0_mask: head_0, dcb_1_mask: head_1, ..nvcap }
}

/// The configuration with the chosen displays on their heads, or the first
/// thing that stands against it: the composite head is looked at first,
/// then the first head, then the second, each list in its order; then the
/// masks that the configuration holds for the third head and the fourth.
pub open spec fn assign_heads_spec(
    nvcap: NVCAP,
    displays: Seq<DisplayView>,
    head_tv: Seq<usize>,
    head_0: Seq<usize>,
    head_1: Seq<usize>,
) -> Result<NVCAP, BuildError> {
    match head_mask_spec(displays, Head::TV, head_tv) {
        Err(e) => Err(e),
        Ok(tv) => match head_mask_spec(displays, Head::Head0, head_0) {
            Err(e) => Err(e),
            Ok(first) => match head_mask_spec(displays, Head::Head1, head_1) {
                Err(e) => Err(e),
                Ok(second) => match held_mask_spec(displays, Head::Head2, nvcap.dcb_2_mask) {
                    Err(e) => Err(e),
                    Ok(_) => match held_mask_spec(displays, Head::Head3, nvcap.dcb_3_mask) {
                        Err(e) => Err(e),
                        Ok(_) => Ok(with_head_masks(nvcap, tv, first, second)),
                    },
                },
            },
        },
    }
}

/// Puts the chosen displays on their heads: sets the three head masks of a
/// copy of `nvcap`, and leaves every other field as it is. The masks that
/// `nvcap` holds for the third and the fourth head are checked against the
/// displays.
pub fn assign_heads(
    nvcap: &NVCAP,
    displays: &Vec<Display>,
    head_tv: &Vec<usize>,
    head_0: &Vec<usize>,
    head_1: &Vec<usize>,
) -> (res: Result<NVCAP, BuildError>)
    ensures
        res == assign_heads_spec(*nvcap, display_views(displays@), head_tv@, head_0@, head_1@),
{
    let tv = match create_head_mask(displays, Head::TV, head_tv) {
        Ok(mask) => mask,
        Err(e) => {
            return Err(e);
        },
    };
    let first = match create_head_mask(displays, Head::Head0, head_0) {
        Ok(mask) => mask,
        Err(e) => {
            return Err(e);
        },
    };
    let second = match create_head_mask(displays, Head::Head1, head_1) {
        Ok(mask) => mask,
        Err(e) => {
            return Err(e);
        },
    };
    let third = match check_head_mask(displays, Head::Head2, nvcap.dcb_2_mask) {
        Ok(mask) => mask,
        Err(e) => {
            return Err(e);
        },
    };
    let fourth = match check_head_mask(displays, Head::Head3, nvcap.dcb_3_mask) {
        Ok(mask) => mask,
        Err(e) => {
            return Err(e);
        },
    };
    Ok(
        NVCAP {
            version: nvcap.version,
            is_mobile: nvcap.is_mobile,
            is_composite: nvcap.is_composite,
            unknown_1: nvcap.unknown_1,
            dcb_tv_mask: tv,
            dcb_0_mask: first,
            dcb_1_mask: second,
            dcb_2_mask: third,
            dcb_3_mask: fourth,
            script_based_power_and_backlight: nvcap.script_based_power_and_backlight,
            field_f: nvcap.field_f,
            edid_bitness: nvcap.edid_bitness,
            unknown_2: nvcap.unknown_2,
        },
    )
}

/// The byte that stands for a flag.
pub open spec fn flag_byte(flag: bool) -> u8 {
    if flag {
        1
    } else {
        0
    }
}

/// The low byte of a 16-bit mask.
pub open spec fn low_byte(mask: u16) -> u8 {
    (mask % 0x100) as u8
}

/// The high byte of a 16-bit mask.
pub open spec fn high_byte(mask: u16) -> u8 {
    (mask / 0x100) as u8
}

/// The 20 bytes of a configuration: the fields in their order, each flag as
/// one byte, each mask as two bytes with the low byte first.
pub open spec fn nvcap_bytes(nvcap: NVCAP) -> Seq<u8> {
    seq![
        nvcap.version,
        flag_byte(nvcap.is_mobile),
        flag_byte(nvcap.is_composite),
        nvcap.unknown_1,
        low_byte(nvcap.dcb_tv_mask),
        high_byte(nvcap.dcb_tv_mask),
        low_byte(nvcap.dcb_0_mask),
        high_byte(nvcap.dcb_0_mask),
        low_byte(nvcap.dcb_1_mask),
        high_byte(nvcap.dcb_1_mask),
        low_byte(nvcap.dcb_2_mask),
        high_byte(nvcap.dcb_2_mask),
        low_byte(nvcap.dcb_3_mask),
        high_byte(nvcap.dcb_3_mask),
        flag_byte(nvcap.script_based_power_and_backlight),
        nvcap.field_f,
        nvcap.edid_bitness,
        nvcap.unknown_2[0],
        nvcap.unknown_2[1],
        nvcap.unknown_2[2],
    ]
}

fn push_flag(bytes: &mut Vec<u8>, flag: bool)
    ensures
        final(bytes)@ == old(bytes)@.push(flag_byte(flag)),
{
    if flag {
        bytes.push(1);
    } else {
        bytes.push(0);
    }
}

fn push_mask(bytes: &mut Vec<u8>, mask: u16)
    ensures
        final(bytes)@ == old(bytes)@.push(low_byte(mask)).push(high_byte(mask)),
{
    assert(mask & 0xff == mask % 0x100 && mask >> 8 == mask / 0x100) by (bit_vector);
    bytes.push((mask & 0xff) as u8);
    bytes.push((mask >> 8) as u8);
}

/// Packs a configuration into the bytes of its NVCAP value.
pub fn nvcap_to_bytes(nvcap: &NVCAP) -> (bytes: Vec<u8>)
    ensures
        bytes@ == nvcap_bytes(*nvcap),
        bytes@.len() == NVCAP_LEN,
{
    let mut bytes: Vec<u8> = Vec::new();
    bytes.push(nvcap.version);
    push_flag(&mut bytes, nvcap.is_mobile);
    push_flag(&mut bytes, nvcap.is_composite);
    bytes.push(nvcap.unknown_1);
    push_mask(&mut bytes, nvcap.dcb_tv_mask);
    push_mask(&mut bytes, nvcap.dcb_0_mask);
    push_mask(&mut bytes, nvcap.dcb_1_mask);
    push_mask(&mut bytes, nvcap.dcb_2_mask);
    push_mask(&mut bytes, nvcap.dcb_3_mask);
    push_flag(&mut bytes, nvcap.script_based_power_and_backlight);
    bytes.push(nvcap.field_f);
    bytes.push(nvcap.edid_bitness);
    bytes.push(nvcap.unknown_2[0]);
    bytes.push(nvcap.unknown_2[1]);
    bytes.push(nvcap.unknown_2[2]);
    assert(bytes@ =~= nvcap_bytes(*nvcap));
    bytes
}

/// The NVCAP value of a configuration with the chosen displays on their
/// heads, or the first assignment that cannot be made.
pub open spec fn create_nvcap_value_spec(
    nvcap: NVCAP,
    displays: Seq<DisplayView>,
    head_tv: Seq<usize>,
    head_0: Seq<usize>,
    head_1: Seq<usize>,
) -> Result<Seq<u8>, BuildError> {
    match assign_heads_spec(nvcap, displays, head_tv, head_0, head_1) {
        Err(e) => Err(e),
        Ok(assigned) => Ok(nvcap_bytes(assigned)),
    }
}

/// Packs a configuration and the chosen head assignments into the bytes of
/// the NVCAP value.
///
/// The head masks of `nvcap` for the composite head and the first two heads
/// are computed from the assignments; every other field is packed as it is.
/// Nothing is packed when an assignment cannot be made, or when a mask
/// that `nvcap` holds for the third or the fourth head has a bit that is
/// the position of no entry of a display which that head can drive.
pub fn create_nvcap_value(
    nvcap: &NVCAP,
    displays: &Vec<Display>,
    head_tv: &Vec<usize>,
    head_0: &Vec<usize>,
    head_1: &Vec<usize>,
) -> (res: Result<Vec<u8>, BuildError>)
    ensures
        match create_nvcap_value_spec(
            *nvcap,
            display_views(displays@),
            head_tv@,
            head_0@,
            head_1@,
        ) {
            Ok(bytes) => res matches Ok(packed) && packed@ == bytes,
            Err(e) => res == Err::<Vec<u8>, BuildError>(e),
        },
{
    match assign_heads(nvcap, displays, head_tv, head_0, head_1) {
        Ok(assigned) => Ok(nvcap_to_bytes(&assigned)),
        Err(e) => Err(e),
    }
}

/// Whether every display chosen for `head` can be assigned to it.
pub open spec fn all_assignable(displays: Seq<DisplayView>, head: Head, chosen: Seq<usize>) -> bool {
    forall|k: int| 0 <= k < chosen.len() ==> assignable(displays, head, #[trigger] chosen[k])
}

/// The displays chosen for `head` among the three lists. None is chosen
/// for the third head or the fourth.
pub open spec fn chosen_for(
    head: Head,
    head_tv: Seq<usize>,
    head_0: Seq<usize>,
    head_1: Seq<usize>,
) -> Seq<usize> {
    match head {
        Head::TV => head_tv,
        Head::Head0 => head_0,
        Head::Head1 => head_1,
        _ => Seq::empty(),
    }
}

/// A head gets its mask exactly when every display chosen for it can be
/// assigned to it.
pub proof fn lemma_head_mask_ok(displays: Seq<DisplayView>, head: Head, chosen: Seq<usize>)
    ensures
        head_mask_spec(displays, head, chosen) is Ok <==> all_assignable(displays, head, chosen),
{
    lemma_first_unassignable(displays, head, chosen, 0);
}

/// Packing succeeds exactly when every chosen display can be assigned to
/// the head it is chosen for and the masks held for the third and the
/// fourth head are permitted, and then yields the bytes of the
/// configuration with the masks of the three heads that displays are chosen
/// for.
pub proof fn lemma_create_nvcap_value_ok(
    nvcap: NVCAP,
    displays: Seq<DisplayView>,
    head_tv: Seq<usize>,
    head_0: Seq<usize>,
    head_1: Seq<usize>,
)
    ensures
        create_nvcap_value_spec(nvcap, displays, head_tv, head_0, head_1) is Ok <==> all_assignable(
            displays,
            Head::TV,
            head_tv,
        ) && all_assignable(displays, Head::Head0, head_0) && all_assignable(
            displays,
            Head::Head1,
            head_1,
        ) && mask_permitted(displays, Head::Head2, nvcap.dcb_2_mask) && mask_permitted(
            displays,
            Head::Head3,
            nvcap.dcb_3_mask,
        ),
        create_nvcap_value_spec(nvcap, displays, head_tv, head_0, head_1) matches Ok(bytes)
            ==> bytes == nvcap_bytes(
            with_head_masks(
                nvcap,
                head_mask(displays, head_tv),
                head_mask(displays, head_0),
                head_mask(displays, head_1),
            ),
        ),
{
    lemma_head_mask_ok(displays, Head::TV, head_tv);
    lemma_head_mask_ok(displays, Head::Head0, head_0);
    lemma_head_mask_ok(displays, Head::Head1, head_1);
    lemma_held_mask_ok(displays, Head::Head2, nvcap.dcb_2_mask);
    lemma_held_mask_ok(displays, Head::Head3, nvcap.dcb_3_mask);
}

/// Packing fails when a display is chosen for a head that its head mask
/// does not permit: the outcome is `ConfigurationInconsistent`, and names a
/// chosen display that cannot be assigned to the head it names.
pub proof fn lemma_create_nvcap_value_rejects(
    nvcap: NVCAP,
    displays: Seq<DisplayView>,
    head_tv: Seq<usize>,
    head_0: Seq<usize>,
    head_1: Seq<usize>,
    head: Head,
    k: int,
)
    requires
        0 <= k < chosen_for(head, head_tv, head_0, head_1).len(),
        chosen_for(head, head_tv, head_0, head_1)[k] < displays.len(),
        !head_permits(
            displays[chosen_for(head, head_tv, head_0, head_1)[k] as int].head_bitmask,
            head,
        ),
    ensures
        create_nvcap_value_spec(nvcap, displays, head_tv, head_0, head_1) matches Err(
            BuildError::ConfigurationInconsistent { head: at, display },
        ) && chosen_for(at, head_tv, head_0, head_1).contains(display) && !assignable(
            displays,
            at,
            display,
        ),
{
    assert(!assignable(displays, head, chosen_for(head, head_tv, head_0, head_1)[k]));
    lemma_first_unassignable(displays, Head::TV, head_tv, 0);
    lemma_first_unassignable(displays, Head::Head0, head_0, 0);
    lemma_first_unassignable(displays, Head::Head1, head_1, 0);
    let bad_tv = first_unassignable(displays, Head::TV, head_tv, 0);
    let bad_0 = first_unassignable(displays, Head::Head0, head_0, 0);
    let bad_1 = first_unassignable(displays, Head::Head1, head_1, 0);
    if bad_tv < head_tv.len() {
        assert(head_tv[bad_tv] == head_tv[bad_tv]);
    } else if bad_0 < head_0.len() {
        assert(head_0[bad_0] == head_0[bad_0]);
    } else {
        assert(bad_1 < head_1.len());
        assert(head_1[bad_1] == head_1[bad_1]);
    }
}

/// Packing fails when the mask that the configuration holds for the third
/// or the fourth head has a bit that is the position of no entry of a
/// display which that head can drive.
pub proof fn lemma_create_nvcap_value_rejects_held(
    nvcap: NVCAP,
    displays: Seq<DisplayView>,
    head_tv: Seq<usize>,
    head_0: Seq<usize>,
    head_1: Seq<usize>,
    head: Head,
    position: u8,
)
    requires
        head == Head::Head2 || head == Head::Head3,
        mask_has(mask_of(nvcap, head), position),
        !position_permitted(displays, head, position),
    ensures
        create_nvcap_value_spec(nvcap, displays, head_tv, head_0, head_1) is Err,
{
    lemma_create_nvcap_value_ok(nvcap, displays, head_tv, head_0, head_1);
}

/// The mask that a configuration holds for a head.
pub open spec fn mask_of(nvcap: NVCAP, head: Head) -> u16 {
    match head {
        Head::TV => nvcap.dcb_tv_mask,
        Head::Head0 => nvcap.dcb_0_mask,
        Head::Head1 => nvcap.dcb_1_mask,
        Head::Head2 => nvcap.dcb_2_mask,
        Head::Head3 => nvcap.dcb_3_mask,
    }
}

/// In a configuration that is packed, every bit of the mask of every head
/// is the position of an entry of a display that the head can drive.
pub proof fn lemma_packed_masks_permitted(
    nvcap: NVCAP,
    displays: Seq<DisplayView>,
    head_tv: Seq<usize>,
    head_0: Seq<usize>,
    head_1: Seq<usize>,
    head: Head,
)
    requires
        assign_heads_spec(nvcap, displays, head_tv, head_0, head_1) is Ok,
    ensures
        mask_permitted(
            displays,
            head,
            mask_of(assign_heads_spec(nvcap, displays, head_tv, head_0, head_1)->Ok_0, head),
        ),
{
    let assigned = assign_heads_spec(nvcap, displays, head_tv, head_0, head_1)->Ok_0;
    let chosen = chosen_for(head, head_tv, head_0, head_1);
    lemma_head_mask_ok(displays, Head::TV, head_tv);
    lemma_head_mask_ok(displays, Head::Head0, head_0);
    lemma_head_mask_ok(displays, Head::Head1, head_1);
    lemma_held_mask_ok(displays, Head::Head2, nvcap.dcb_2_mask);
    lemma_held_mask_ok(displays, Head::Head3, nvcap.dcb_3_mask);
    if head == Head::TV || head == Head::Head0 || head == Head::Head1 {
        assert(mask_of(assigned, head) == head_mask(displays, chosen));
        assert forall|position: u8| #[trigger]
            mask_has(mask_of(assigned, head), position) implies position_permitted(
            displays,
            head,
            position,
        ) by {
            lemma_head_mask(displays, chosen, position);
            let k = choose|k: int|
                0 <= k < chosen.len() && (#[trigger] chosen[k]) < displays.len()
                    && displays[chosen[k] as int].dcb_entries.contains(position);
            assert(assignable(displays, head, chosen[k]));
            assert(displays[chosen[k] as int].dcb_entries.contains(position));
        }
    }
}

} // verus!
