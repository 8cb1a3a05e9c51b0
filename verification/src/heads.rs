//! Choosing the displays of each head: the assignment that is made
//! automatically, and the changes that a user asks for.

use crate::nvcap::{
    all_assignable, create_nvcap_value_spec, head_allowed, head_permits,
    lemma_create_nvcap_value_ok, mask_permitted, positions_fit, Head, HEAD_0_BITMASK,
    HEAD_1_BITMASK, NVCAP,
};
use crate::util::{display_views, has_kind, has_tv, is_mobile, Display, DisplayType, DisplayView};
use vstd::prelude::*;

verus! {

/// The head that the display with index `display` is put on without asking.
///
/// A TV display goes to the composite head. On a mobile card the built-in
/// panel goes to the first head where it can, and every other display to
/// the second head where it can. Nothing else is assigned.
pub open spec fn auto_head(displays: Seq<DisplayView>, display: int) -> Option<Head> {
    let d = displays[display];
    if d.disp_type == DisplayType::TV {
        Some(Head::TV)
    } else if !has_kind(displays, DisplayType::LVDS) {
        None
    } else if d.disp_type == DisplayType::LVDS && d.head_bitmask & HEAD_0_BITMASK != 0 {
        Some(Head::Head0)
    } else if d.head_bitmask & HEAD_1_BITMASK != 0 {
        Some(Head::Head1)
    } else {
        None
    }
}

/// The indices `0 .. n`, in order.
pub open spec fn indices(n: nat) -> Seq<usize> {
    Seq::new(n, |i: int| i as usize)
}

/// The test whether a display is put on `head` without asking.
pub open spec fn goes_to(displays: Seq<DisplayView>, head: Head) -> spec_fn(usize) -> bool {
    |display: usize| auto_head(displays, display as int) == Some(head)
}

/// The displays among the first `n` that are put on `head` without asking,
/// in order.
pub open spec fn auto_chosen(displays: Seq<DisplayView>, head: Head, n: nat) -> Seq<usize> {
    indices(n).filter(goes_to(displays, head))
}

proof fn lemma_auto_chosen_step(displays: Seq<DisplayView>, head: Head, n: nat)
    requires
        n < usize::MAX,
    ensures
        auto_chosen(displays, head, n + 1) == if auto_head(displays, n as int) == Some(head) {
            auto_chosen(displays, head, n).push(n as usize)
        } else {
            auto_chosen(displays, head, n)
        },
{
    assert(indices(n + 1) =~= indices(n).push(n as usize));
    indices(n).lemma_filter_push(n as usize, goes_to(displays, head));
}

proof fn lemma_auto_chosen_none(displays: Seq<DisplayView>, head: Head)
    ensures
        auto_chosen(displays, head, 0) == Seq::<usize>::empty(),
{
    reveal(Seq::filter);
    assert(indices(0).filter(goes_to(displays, head)) =~= Seq::<usize>::empty());
}

/// A display that is put on a head without asking is one of the first `n`
/// displays, and its head mask permits that head.
pub proof fn lemma_auto_chosen_permitted(displays: Seq<DisplayView>, head: Head, n: nat, k: int)
    requires
        n <= displays.len(),
        n <= usize::MAX,
        0 <= k < auto_chosen(displays, head, n).len(),
    ensures
        auto_chosen(displays, head, n)[k] < n,
        auto_head(displays, auto_chosen(displays, head, n)[k] as int) == Some(head),
        head_permits(displays[auto_chosen(displays, head, n)[k] as int].head_bitmask, head),
    decreases n,
{
    if n == 0 {
        lemma_auto_chosen_none(displays, head);
    } else {
        let m = (n - 1) as nat;
        lemma_auto_chosen_step(displays, head, m);
        if k < auto_chosen(displays, head, m).len() {
            lemma_auto_chosen_permitted(displays, head, m, k);
        }
    }
}

/// Puts the displays on the heads where they plainly belong: appends to
/// each list the displays that go to its head, in the order of the display
/// list.
pub fn filter_displays(
    displays: &Vec<Display>,
    head_tv: &mut Vec<usize>,
    head_0: &mut Vec<usize>,
    head_1: &mut Vec<usize>,
)
    ensures
        final(head_tv)@ == old(head_tv)@ + auto_chosen(
            display_views(displays@),
            Head::TV,
            displays@.len(),
        ),
        final(head_0)@ == old(head_0)@ + auto_chosen(
            display_views(displays@),
            Head::Head0,
            displays@.len(),
        ),
        final(head_1)@ == old(head_1)@ + auto_chosen(
            display_views(displays@),
            Head::Head1,
            displays@.len(),
        ),
{
    let mobile = is_mobile(displays);
    let ghost views = display_views(displays@);
    proof {
        lemma_auto_chosen_none(views, Head::TV);
        lemma_auto_chosen_none(views, Head::Head0);
        lemma_auto_chosen_none(views, Head::Head1);
    }
    let mut i: usize = 0;
    while i < displays.len()
        invariant
            i <= displays.len(),
            views == display_views(displays@),
            mobile == has_kind(views, DisplayType::LVDS),
            head_tv@ == old(head_tv)@ + auto_chosen(views, Head::TV, i as nat),
            head_0@ == old(head_0)@ + auto_chosen(views, Head::Head0, i as nat),
            head_1@ == old(head_1)@ + auto_chosen(views, Head::Head1, i as nat),
        decreases displays.len() - i,
    {
        let display = &displays[i];
        proof {
            assert(views[i as int] == display@);
            lemma_auto_chosen_step(views, Head::TV, i as nat);
            lemma_auto_chosen_step(views, Head::Head0, i as nat);
            lemma_auto_chosen_step(views, Head::Head1, i as nat);
        }
        if display.disp_type == DisplayType::TV {
            head_tv.push(i);
        } else if mobile {
            if display.disp_type == DisplayType::LVDS && display.head_bitmask & HEAD_0_BITMASK
                != 0 {
                head_0.push(i);
            } else if display.head_bitmask & HEAD_1_BITMASK != 0 {
                head_1.push(i);
            }
        }
        i += 1;
    }
}

/// A head list after the display `display` is toggled: without its first
/// mention of the display where it has one, else with the display at its end.
pub open spec fn toggled(head: Seq<usize>, display: usize) -> Seq<usize> {
    if head.contains(display) {
        head.remove_value(display)
    } else {
        head.push(display)
    }
}

/// Takes a display off a head if it is on it, and puts it on if it is not.
pub fn toggle_display(head: &mut Vec<usize>, disp_idx: usize)
    ensures
        final(head)@ == toggled(old(head)@, disp_idx),
{
    let mut i: usize = 0;
    while i < head.len()
        invariant
            i <= head.len(),
            head@ == old(head)@,
            forall|k: int| 0 <= k < i ==> head@[k] != disp_idx,
        decreases head.len() - i,
    {
        if head[i] == disp_idx {
            proof {
                head@.index_of_first_ensures(disp_idx);
            }
            head.remove(i);
            return ;
        }
        i += 1;
    }
    assert(!head@.contains(disp_idx));
    head.push(disp_idx);
}

/// Whether every display on the list of `head` is in the display list and
/// has a head mask that permits the head.
pub open spec fn list_permitted(displays: Seq<DisplayView>, head: Head, chosen: Seq<usize>) -> bool {
    forall|k: int|
        0 <= k < chosen.len() ==> (#[trigger] chosen[k]) < displays.len() && head_permits(
            displays[chosen[k] as int].head_bitmask,
            head,
        )
}

/// Toggling a display that a head can drive keeps the list of that head
/// within what the head masks permit.
pub proof fn lemma_toggled_permitted(
    displays: Seq<DisplayView>,
    head: Head,
    chosen: Seq<usize>,
    display: usize,
)
    requires
        list_permitted(displays, head, chosen),
        display < displays.len(),
        head_permits(displays[display as int].head_bitmask, head),
    ensures
        list_permitted(displays, head, toggled(chosen, display)),
{
    let after = toggled(chosen, display);
    if chosen.contains(display) {
        chosen.index_of_first_ensures(display);
        let at = chosen.index_of_first(display)->0;
        assert forall|k: int| 0 <= k < after.len() implies (#[trigger] after[k]) < displays.len()
            && head_permits(displays[after[k] as int].head_bitmask, head) by {
            if k < at {
                assert(after[k] == chosen[k]);
            } else {
                assert(after[k] == chosen[k + 1]);
            }
        }
    } else {
        assert forall|k: int| 0 <= k < after.len() implies (#[trigger] after[k]) < displays.len()
            && head_permits(displays[after[k] as int].head_bitmask, head) by {
            if k < chosen.len() {
                assert(after[k] == chosen[k]);
            }
        }
    }
}

/// The lists that the automatic assignment fills from nothing are within
/// what the head masks permit.
pub proof fn lemma_auto_chosen_list_permitted(displays: Seq<DisplayView>, head: Head)
    requires
        displays.len() <= usize::MAX,
    ensures
        list_permitted(displays, head, auto_chosen(displays, head, displays.len())),
{
    let chosen = auto_chosen(displays, head, displays.len());
    assert forall|k: int| 0 <= k < chosen.len() implies (#[trigger] chosen[k]) < displays.len()
        && head_permits(displays[chosen[k] as int].head_bitmask, head) by {
        lemma_auto_chosen_permitted(displays, head, displays.len(), k);
    }
}

/// Head lists within what the head masks permit can be packed, provided
/// that every entry of every display has a bit in a head mask and that the
/// masks held for the third and the fourth head are permitted. A display
/// with an entry at position 16 or later may be chosen, but not packed.
pub proof fn lemma_permitted_lists_pack(
    nvcap: NVCAP,
    displays: Seq<DisplayView>,
    head_tv: Seq<usize>,
    head_0: Seq<usize>,
    head_1: Seq<usize>,
)
    requires
        list_permitted(displays, Head::TV, head_tv),
        list_permitted(displays, Head::Head0, head_0),
        list_permitted(displays, Head::Head1, head_1),
        forall|d: int| 0 <= d < displays.len() ==> positions_fit((#[trigger] displays[d]).dcb_entries),
        mask_permitted(displays, Head::Head2, nvcap.dcb_2_mask),
        mask_permitted(displays, Head::Head3, nvcap.dcb_3_mask),
    ensures
        create_nvcap_value_spec(nvcap, displays, head_tv, head_0, head_1) is Ok,
{
    lemma_create_nvcap_value_ok(nvcap, displays, head_tv, head_0, head_1);
    assert(all_assignable(displays, Head::TV, head_tv));
    assert(all_assignable(displays, Head::Head0, head_0));
    assert(all_assignable(displays, Head::Head1, head_1));
}

/// Whether a user may toggle the display with number `number` on `head`.
/// Displays are numbered from 1. A display can be toggled on one of the
/// first two heads if its head mask permits the head, and on the composite
/// head if the card has a TV display at all. No display is chosen for the
/// third head or the fourth.
pub open spec fn head_selectable(displays: Seq<DisplayView>, number: usize, head: Head) -> bool {
    &&& 1 <= number <= displays.len()
    &&& match head {
        Head::TV => has_kind(displays, DisplayType::TV),
        Head::Head0 => head_permits(displays[number - 1].head_bitmask, head),
        Head::Head1 => head_permits(displays[number - 1].head_bitmask, head),
        _ => false,
    }
}

/// Carries out a user's request to toggle display `number` on `head`.
///
/// Where the request is allowed, the display's index, `number - 1`, is
/// toggled on the list of that head; the other lists stay as they are.
/// Where it is not, nothing changes. The result says whether it was allowed.
/// A list that was within what the head masks permit stays so.
pub fn select_head(
    displays: &Vec<Display>,
    head_tv: &mut Vec<usize>,
    head_0: &mut Vec<usize>,
    head_1: &mut Vec<usize>,
    number: usize,
    head: Head,
) -> (changed: bool)
    ensures
        changed == head_selectable(display_views(displays@), number, head),
        final(head_tv)@ == if changed && head == Head::TV {
            toggled(old(head_tv)@, (number - 1) as usize)
        } else {
            old(head_tv)@
        },
        final(head_0)@ == if changed && head == Head::Head0 {
            toggled(old(head_0)@, (number - 1) as usize)
        } else {
            old(head_0)@
        },
        final(head_1)@ == if changed && head == Head::Head1 {
            toggled(old(head_1)@, (number - 1) as usize)
        } else {
            old(head_1)@
        },
        list_permitted(display_views(displays@), Head::TV, old(head_tv)@) ==> list_permitted(
            display_views(displays@),
            Head::TV,
            final(head_tv)@,
        ),
        list_permitted(display_views(displays@), Head::Head0, old(head_0)@) ==> list_permitted(
            display_views(displays@),
            Head::Head0,
            final(head_0)@,
        ),
        list_permitted(display_views(displays@), Head::Head1, old(head_1)@) ==> list_permitted(
            display_views(displays@),
            Head::Head1,
            final(head_1)@,
        ),
{
    if number < 1 || number > displays.len() {
        return false;
    }
    proof {
        let views = display_views(displays@);
        let picked = (number - 1) as usize;
        if list_permitted(views, Head::TV, old(head_tv)@) {
            lemma_toggled_permitted(views, Head::TV, old(head_tv)@, picked);
        }
        if list_permitted(views, Head::Head0, old(head_0)@) && head_permits(
            views[picked as int].head_bitmask,
            Head::Head0,
        ) {
            lemma_toggled_permitted(views, Head::Head0, old(head_0)@, picked);
        }
        if list_permitted(views, Head::Head1, old(head_1)@) && head_permits(
            views[picked as int].head_bitmask,
            Head::Head1,
        ) {
            lemma_toggled_permitted(views, Head::Head1, old(head_1)@, picked);
        }
    }
    let disp_idx: usize = number - 1;
    assert(display_views(displays@)[disp_idx as int] == displays@[disp_idx as int]@);
    match head {
        Head::TV => {
            if !has_tv(displays) {
                return false;
            }
            toggle_display(head_tv, disp_idx);
        },
        Head::Head0 => {
            if !head_allowed(displays[disp_idx].head_bitmask, Head::Head0) {
                return false;
            }
            toggle_display(head_0, disp_idx);
        },
        Head::Head1 => {
            if !head_allowed(displays[disp_idx].head_bitmask, Head::Head1) {
                return false;
            }
            toggle_display(head_1, disp_idx);
        },
        _ => {
            return false;
        },
    }
    true
}

/// The number of heads that a head mask has a bit for.
pub const HEAD_COUNT: u8 = 4;

/// Whether a head mask has the bit of the head with number `number`,
/// counted from 1.
pub open spec fn supports_head(head_bitmask: u32, number: u8) -> bool {
    1 <= number <= HEAD_COUNT && head_bitmask & (1u32 << ((number - 1) as u32)) != 0
}

/// The test whether a head mask has the bit of a head.
pub open spec fn supported_by(head_bitmask: u32) -> spec_fn(u8) -> bool {
    |number: u8| supports_head(head_bitmask, number)
}

/// The head numbers `1 ..= n`, in order.
pub open spec fn head_numbers(n: nat) -> Seq<u8> {
    Seq::new(n, |i: int| (i + 1) as u8)
}

/// Lists the numbers of the heads, from 1 to 4, that a display with the
/// given head mask can be driven by, in rising order.
pub fn supported_heads(head_bitmask: u32) -> (heads: Vec<u8>)
    ensures
        heads@ == head_numbers(HEAD_COUNT as nat).filter(supported_by(head_bitmask)),
{
    let mut heads: Vec<u8> = Vec::new();
    let mut i: u8 = 0;
    proof {
        reveal(Seq::filter);
        assert(head_numbers(0).filter(supported_by(head_bitmask)) =~= Seq::<u8>::empty());
    }
    while i < HEAD_COUNT
        invariant
            i <= HEAD_COUNT,
            heads@ == head_numbers(i as nat).filter(supported_by(head_bitmask)),
        decreases HEAD_COUNT - i,
    {
        proof {
            assert(head_numbers(i as nat + 1) =~= head_numbers(i as nat).push((i + 1) as u8));
            head_numbers(i as nat).lemma_filter_push((i + 1) as u8, supported_by(head_bitmask));
        }
        if head_bitmask & (1u32 << (i as u32)) != 0 {
            heads.push(i + 1);
        }
        i += 1;
    }
    heads
}

} // verus!
