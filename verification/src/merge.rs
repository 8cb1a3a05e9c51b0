//! Merging DCB entries into logical displays.
//!
//! Two entries on the same bus describe the two links of one physical port
//! and become one display. Each entry is used for one display only.

use crate::nvidia::{DcbEntry, DCB_CONN_CRT, DCB_CONN_LVDS, DCB_CONN_TV};
use crate::util::{display_views, Display, DisplayType, DisplayView};
use vstd::prelude::*;

verus! {

/// The kind of display that a connector type stands for on its own.
pub open spec fn display_kind(entry_type: u32) -> DisplayType {
    if entry_type == DCB_CONN_LVDS {
        DisplayType::LVDS
    } else if entry_type == DCB_CONN_CRT {
        DisplayType::Analog
    } else if entry_type == DCB_CONN_TV {
        DisplayType::TV
    } else {
        DisplayType::Digital
    }
}

/// The kind of display that an entry stands for on its own.
pub fn get_display_type(entry: &DcbEntry) -> (kind: DisplayType)
    ensures
        kind == display_kind(entry.entry_type),
{
    if entry.entry_type == DCB_CONN_LVDS {
        DisplayType::LVDS
    } else if entry.entry_type == DCB_CONN_CRT {
        DisplayType::Analog
    } else if entry.entry_type == DCB_CONN_TV {
        DisplayType::TV
    } else {
        DisplayType::Digital
    }
}

/// The display made of one entry alone.
pub open spec fn single_display(entry: DcbEntry) -> DisplayView {
    DisplayView {
        disp_type: display_kind(entry.entry_type),
        dcb_entries: seq![entry.entry],
        head_bitmask: entry.head_bitmask,
    }
}

/// The display made of an entry and its partner: it can be driven by the
/// heads that both support, and is a DVI display when their types differ.
pub open spec fn paired_display(entry: DcbEntry, partner: DcbEntry) -> DisplayView {
    DisplayView {
        disp_type: if entry.entry_type == partner.entry_type {
            display_kind(partner.entry_type)
        } else {
            DisplayType::DVI
        },
        dcb_entries: seq![entry.entry, partner.entry],
        head_bitmask: entry.head_bitmask & partner.head_bitmask,
    }
}

/// Whether the entry at `at` can be paired with the entry at `of`: it is on
/// the same bus, is another entry, and has not been merged yet.
pub open spec fn is_partner(entries: Seq<DcbEntry>, merged: Set<u8>, of: int, at: int) -> bool {
    &&& 0 <= at < entries.len()
    &&& entries[at].bus == entries[of].bus
    &&& entries[at].entry != entries[of].entry
    &&& !merged.contains(entries[at].entry)
}

/// The first place from `from` on whose entry can be paired with the entry
/// at `of`, or the length of the list when there is none.
pub open spec fn first_partner(entries: Seq<DcbEntry>, merged: Set<u8>, of: int, from: int) -> int
    decreases entries.len() - from,
{
    if from >= entries.len() || is_partner(entries, merged, of, from) {
        from
    } else {
        first_partner(entries, merged, of, from + 1)
    }
}

/// The displays made of the entries from place `at` on, given the set of
/// entry positions that were merged into displays before.
///
/// An entry that is already merged is passed over. Any other entry takes the
/// first entry of the list that can be paired with it, and both are merged
/// from then on; where there is none it makes a display alone.
pub open spec fn merge_from(entries: Seq<DcbEntry>, merged: Set<u8>, at: int) -> Seq<DisplayView>
    decreases entries.len() - at,
{
    if at < 0 || at >= entries.len() {
        Seq::empty()
    } else if merged.contains(entries[at].entry) {
        merge_from(entries, merged, at + 1)
    } else {
        let partner = first_partner(entries, merged, at, 0);
        if partner < entries.len() {
            seq![paired_display(entries[at], entries[partner])] + merge_from(
                entries,
                merged.insert(entries[at].entry).insert(entries[partner].entry),
                at + 1,
            )
        } else {
            seq![single_display(entries[at])] + merge_from(entries, merged, at + 1)
        }
    }
}

/// The displays that a list of entries merges into.
pub open spec fn merge_spec(entries: Seq<DcbEntry>) -> Seq<DisplayView> {
    merge_from(entries, Set::empty(), 0)
}

/// `first_partner` is the least place from `from` on that holds a partner.
pub proof fn lemma_first_partner(entries: Seq<DcbEntry>, merged: Set<u8>, of: int, from: int)
    requires
        0 <= from <= entries.len(),
    ensures
        from <= first_partner(entries, merged, of, from) <= entries.len(),
        forall|k: int|
            from <= k < first_partner(entries, merged, of, from) ==> !#[trigger] is_partner(
                entries,
                merged,
                of,
                k,
            ),
        first_partner(entries, merged, of, from) < entries.len() ==> is_partner(
            entries,
            merged,
            of,
            first_partner(entries, merged, of, from),
        ),
    decreases entries.len() - from,
{
    if from < entries.len() && !is_partner(entries, merged, of, from) {
        lemma_first_partner(entries, merged, of, from + 1);
    }
}

proof fn lemma_first_partner_is(
    entries: Seq<DcbEntry>,
    merged: Set<u8>,
    of: int,
    from: int,
    found: int,
)
    requires
        0 <= from <= found <= entries.len(),
        forall|k: int| from <= k < found ==> !#[trigger] is_partner(entries, merged, of, k),
        found == entries.len() || is_partner(entries, merged, of, found),
    ensures
        first_partner(entries, merged, of, from) == found,
    decreases found - from,
{
    if from < found {
        lemma_first_partner_is(entries, merged, of, from + 1, found);
    }
}

fn is_merged(merged: &Vec<u8>, entry: u8) -> (found: bool)
    ensures
        found == merged@.to_set().contains(entry),
{
    let mut i: usize = 0;
    while i < merged.len()
        invariant
            i <= merged.len(),
            forall|k: int| 0 <= k < i ==> merged@[k] != entry,
        decreases merged.len() - i,
    {
        if merged[i] == entry {
            assert(merged@.contains(entry));
            return true;
        }
        i += 1;
    }
    assert(!merged@.contains(entry));
    false
}

fn find_partner(entries: &Vec<DcbEntry>, merged: &Vec<u8>, of: usize) -> (partner: usize)
    requires
        of < entries.len(),
    ensures
        partner == first_partner(entries@, merged@.to_set(), of as int, 0),
        partner <= entries.len(),
{
    let mut at: usize = 0;
    while at < entries.len()
        invariant
            at <= entries.len(),
            of < entries.len(),
            forall|k: int|
                0 <= k < at ==> !#[trigger] is_partner(entries@, merged@.to_set(), of as int, k),
        decreases entries.len() - at,
    {
        if entries[at].bus == entries[of].bus && entries[at].entry != entries[of].entry
            && !is_merged(merged, entries[at].entry) {
            proof {
                lemma_first_partner_is(entries@, merged@.to_set(), of as int, 0, at as int);
            }
            return at;
        }
        at += 1;
    }
    proof {
        lemma_first_partner_is(entries@, merged@.to_set(), of as int, 0, at as int);
    }
    at
}

/// Merges the entries of a DCB table into logical displays, in table order.
pub fn merge_dcb_entries(parsed_dcb_entries: &Vec<DcbEntry>) -> (displays: Vec<Display>)
    ensures
        display_views(displays@) == merge_spec(parsed_dcb_entries@),
{
    let mut filtered_pub_entries: Vec<Display> = Vec::new();
    let mut merged_entries: Vec<u8> = Vec::new();
    let mut at: usize = 0;
    assert(merged_entries@.to_set() =~= Set::<u8>::empty());
    assert(display_views(filtered_pub_entries@) =~= Seq::<DisplayView>::empty());
    while at < parsed_dcb_entries.len()
        invariant
            at <= parsed_dcb_entries.len(),
            display_views(filtered_pub_entries@) + merge_from(
                parsed_dcb_entries@,
                merged_entries@.to_set(),
                at as int,
            ) == merge_spec(parsed_dcb_entries@),
        decreases parsed_dcb_entries.len() - at,
    {
        let dcb_entry = parsed_dcb_entries[at];
        let ghost before = display_views(filtered_pub_entries@);
        let ghost marks_before = merged_entries@;
        let ghost merged_before = merged_entries@.to_set();
        if !is_merged(&merged_entries, dcb_entry.entry) {
            let partner = find_partner(parsed_dcb_entries, &merged_entries, at);
            let display = if partner < parsed_dcb_entries.len() {
                let x = parsed_dcb_entries[partner];
                merged_entries.push(dcb_entry.entry);
                merged_entries.push(x.entry);
                proof {
                    marks_before.lemma_push_to_set_commute(dcb_entry.entry);
                    marks_before.push(dcb_entry.entry).lemma_push_to_set_commute(x.entry);
                }
                let disp_type = if dcb_entry.entry_type == x.entry_type {
                    get_display_type(&x)
                } else {
                    DisplayType::DVI
                };
                let mut backing: Vec<u8> = Vec::new();
                backing.push(dcb_entry.entry);
                backing.push(x.entry);
                assert(backing@ =~= seq![dcb_entry.entry, x.entry]);
                Display {
                    disp_type,
                    dcb_entries: backing,
                    head_bitmask: dcb_entry.head_bitmask & x.head_bitmask,
                }
            } else {
                let mut backing: Vec<u8> = Vec::new();
                backing.push(dcb_entry.entry);
                assert(backing@ =~= seq![dcb_entry.entry]);
                Display {
                    disp_type: get_display_type(&dcb_entry),
                    dcb_entries: backing,
                    head_bitmask: dcb_entry.head_bitmask,
                }
            };
            let ghost made = display@;
            filtered_pub_entries.push(display);
            proof {
                assert(display_views(filtered_pub_entries@) =~= before.push(made));
                let rest = merge_from(
                    parsed_dcb_entries@,
                    merged_entries@.to_set(),
                    at as int + 1,
                );
                assert(merge_from(parsed_dcb_entries@, merged_before, at as int) == seq![made]
                    + rest);
                assert(before.push(made) + rest =~= before + (seq![made] + rest));
            }
        }
        at += 1;
    }
    assert(display_views(filtered_pub_entries@) + Seq::<DisplayView>::empty()
        =~= display_views(filtered_pub_entries@));
    filtered_pub_entries
}

/// Whether no two entries of the list have the same position.
pub open spec fn distinct_positions(entries: Seq<DcbEntry>) -> bool {
    forall|i: int, j: int|
        0 <= i < j < entries.len() ==> (#[trigger] entries[i]).entry != (#[trigger] entries[j]).entry
}

/// Whether some entry from place `from` on has the position `position`.
pub open spec fn has_position(entries: Seq<DcbEntry>, from: int, position: u8) -> bool {
    exists|k: int| from <= k < entries.len() && (#[trigger] entries[k]).entry == position
}

/// How many of the displays hold the entry position `position`.
pub open spec fn displays_holding(displays: Seq<DisplayView>, position: u8) -> nat
    decreases displays.len(),
{
    if displays.len() == 0 {
        0
    } else {
        let here: nat = if displays[0].dcb_entries.contains(position) {
            1
        } else {
            0
        };
        here + displays_holding(displays.drop_first(), position)
    }
}

/// Whether every entry before `at` that is not merged has no bus mate that
/// is not merged: such an entry made a display alone and never becomes a
/// partner.
spec fn lone_before(entries: Seq<DcbEntry>, merged: Set<u8>, at: int) -> bool {
    forall|k: int, j: int|
        0 <= k < at && 0 <= j < entries.len() && j != k && !merged.contains(
            (#[trigger] entries[k]).entry,
        ) && (#[trigger] entries[j]).bus == entries[k].bus ==> merged.contains(entries[j].entry)
}

proof fn lemma_holding_prepend(first: DisplayView, rest: Seq<DisplayView>, position: u8)
    ensures
        displays_holding(seq![first] + rest, position) == displays_holding(rest, position) + (
        if first.dcb_entries.contains(position) {
            1nat
        } else {
            0nat
        }),
{
    assert((seq![first] + rest).drop_first() =~= rest);
}

proof fn lemma_merge_from_holding(
    entries: Seq<DcbEntry>,
    merged: Set<u8>,
    at: int,
    position: u8,
)
    requires
        distinct_positions(entries),
        0 <= at <= entries.len(),
        lone_before(entries, merged, at),
    ensures
        displays_holding(merge_from(entries, merged, at), position) == (if has_position(
            entries,
            at,
            position,
        ) && !merged.contains(position) {
            1nat
        } else {
            0nat
        }),
    decreases entries.len() - at,
{
    if at >= entries.len() {
    } else if merged.contains(entries[at].entry) {
        lemma_merge_from_holding(entries, merged, at + 1, position);
        if has_position(entries, at, position) && !merged.contains(position) {
            let k = choose|k: int|
                at <= k < entries.len() && (#[trigger] entries[k]).entry == position;
            assert(k != at);
            assert(has_position(entries, at + 1, position));
        }
    } else {
        let here = entries[at];
        lemma_first_partner(entries, merged, at, 0);
        let partner = first_partner(entries, merged, at, 0);
        if partner < entries.len() {
            let mate = entries[partner];
            let merged_after = merged.insert(here.entry).insert(mate.entry);
            assert(is_partner(entries, merged, at, partner));
            assert(partner != at);
            // An earlier entry that is not merged has no bus mate left.
            assert(partner > at);
            let rest = merge_from(entries, merged_after, at + 1);
            lemma_merge_from_holding(entries, merged_after, at + 1, position);
            lemma_holding_prepend(paired_display(here, mate), rest, position);
            let held = paired_display(here, mate).dcb_entries;
            assert(held[0] == here.entry && held[1] == mate.entry);
            if position == here.entry || position == mate.entry {
                assert(held.contains(position));
                assert(has_position(entries, at, position));
            } else {
                assert(!held.contains(position));
                if has_position(entries, at, position) {
                    let k = choose|k: int|
                        at <= k < entries.len() && (#[trigger] entries[k]).entry == position;
                    assert(k != at);
                    assert(has_position(entries, at + 1, position));
                }
            }
        } else {
            assert forall|j: int| 0 <= j < entries.len() implies !is_partner(
                entries,
                merged,
                at,
                j,
            ) by {}
            assert(lone_before(entries, merged, at + 1)) by {
                assert forall|k: int, j: int|
                    0 <= k < at + 1 && 0 <= j < entries.len() && j != k && !merged.contains(
                        (#[trigger] entries[k]).entry,
                    ) && (#[trigger] entries[j]).bus == entries[k].bus implies merged.contains(
                    entries[j].entry,
                ) by {
                    if k == at {
                        assert(!is_partner(entries, merged, at, j));
                    }
                }
            }
            let rest = merge_from(entries, merged, at + 1);
            lemma_merge_from_holding(entries, merged, at + 1, position);
            lemma_holding_prepend(single_display(here), rest, position);
            let held = single_display(here).dcb_entries;
            assert(held[0] == here.entry);
            if position == here.entry {
                assert(held.contains(position));
                assert(has_position(entries, at, position));
                if has_position(entries, at + 1, position) {
                    let k = choose|k: int|
                        at + 1 <= k < entries.len() && (#[trigger] entries[k]).entry == position;
                    assert(false);
                }
            } else {
                assert(!held.contains(position));
                if has_position(entries, at, position) {
                    let k = choose|k: int|
                        at <= k < entries.len() && (#[trigger] entries[k]).entry == position;
                    assert(k != at);
                    assert(has_position(entries, at + 1, position));
                }
            }
        }
    }
}

/// Merging uses every entry once: where no two entries share a position,
/// the position of each entry is held by exactly one display, and no display
/// holds a position that no entry has.
pub proof fn lemma_merge_uses_each_entry_once(entries: Seq<DcbEntry>, position: u8)
    requires
        distinct_positions(entries),
    ensures
        displays_holding(merge_spec(entries), position) == (if has_position(entries, 0, position) {
            1nat
        } else {
            0nat
        }),
{
    lemma_merge_from_holding(entries, Set::empty(), 0, position);
}

/// Whether `mask` has no bit outside `of`.
pub open spec fn mask_within(mask: u32, of: u32) -> bool {
    mask & of == mask
}

/// Whether a display is made of the entries at the places `first` and
/// `second` of the list: of the one entry where the two places are the same,
/// else of two different entries on one bus.
pub open spec fn made_of(display: DisplayView, entries: Seq<DcbEntry>, first: int, second: int) -> bool {
    &&& 0 <= first < entries.len()
    &&& 0 <= second < entries.len()
    &&& first == second ==> display == single_display(entries[first])
    &&& first != second ==> display == paired_display(entries[first], entries[second])
        && entries[first].bus == entries[second].bus && entries[first].entry
        != entries[second].entry
}

proof fn lemma_merge_from_made_of(entries: Seq<DcbEntry>, merged: Set<u8>, at: int, d: int) -> (places:
    (int, int))
    requires
        0 <= at,
        0 <= d < merge_from(entries, merged, at).len(),
    ensures
        made_of(merge_from(entries, merged, at)[d], entries, places.0, places.1),
    decreases entries.len() - at,
{
    if merged.contains(entries[at].entry) {
        lemma_merge_from_made_of(entries, merged, at + 1, d)
    } else {
        lemma_first_partner(entries, merged, at, 0);
        let partner = first_partner(entries, merged, at, 0);
        if partner < entries.len() {
            if d == 0 {
                (at, partner)
            } else {
                lemma_merge_from_made_of(
                    entries,
                    merged.insert(entries[at].entry).insert(entries[partner].entry),
                    at + 1,
                    d - 1,
                )
            }
        } else {
            if d == 0 {
                (at, at)
            } else {
                lemma_merge_from_made_of(entries, merged, at + 1, d - 1)
            }
        }
    }
}

/// Every merged display is made of one entry of the list or of two different
/// entries on one bus. Its head mask is the bitwise AND of the masks of the
/// entries it is made of, and so has no bit outside either of them.
///
/// The result names the places of those entries; they are the same place
/// for a display of one entry.
pub proof fn lemma_merged_display(entries: Seq<DcbEntry>, d: int) -> (places: (int, int))
    requires
        0 <= d < merge_spec(entries).len(),
    ensures
        made_of(merge_spec(entries)[d], entries, places.0, places.1),
        merge_spec(entries)[d].head_bitmask == entries[places.0].head_bitmask
            & entries[places.1].head_bitmask,
        mask_within(merge_spec(entries)[d].head_bitmask, entries[places.0].head_bitmask),
        mask_within(merge_spec(entries)[d].head_bitmask, entries[places.1].head_bitmask),
{
    let places = lemma_merge_from_made_of(entries, Set::empty(), 0, d);
    let a = entries[places.0].head_bitmask;
    let b = entries[places.1].head_bitmask;
    assert(a & a == a && (a & b) & a == a & b && (a & b) & b == a & b) by (bit_vector);
    places
}

} // verus!
