//! The host's rules for a building that a peer asks to place: the research
//! gate, then paying for it from the peer's inventory, then a refund when
//! the world refuses the spot. Placing it in the world happens in between.

use vstd::prelude::*;
use crate::content::registry::ContentRegistry;
use crate::content::tech::TechState;
use crate::inventory::{
    affords, amount_in, building_cost, hint_text, lemma_building_cost_distinct, lemma_spend_then_refund,
    refund_slots, slots_wf, spend_slots, Inventory, InvSlot,
};
use crate::sim::BuildingKind;
use crate::sim::Item;

verus! {

/// The host's answer to a placement request before the building is placed.
pub enum PlaceGate {
    /// The building's technology is not researched (and the game is not
    /// creative): nothing is taken.
    Locked,
    /// The peer cannot pay; the text says what is missing. Nothing is taken.
    Short(String),
    /// The request may go ahead; its cost has been taken where one is due.
    Paid,
}

/// A cost is charged: not in creative mode, and the building costs something.
pub open spec fn charged(creative: bool, costs: Seq<(Item, u32)>) -> bool {
    !creative && costs.len() > 0
}

/// Check a peer's placement request for a building gated by `unlock` and
/// costing `costs`, charging the peer's inventory `inv` when it goes ahead.
pub fn gate_place_request(
    tech: &TechState,
    reg: Option<&ContentRegistry>,
    unlock: &str,
    creative: bool,
    inv: &mut Inventory,
    costs: &[(Item, u32)],
) -> (r: PlaceGate)
    requires
        forall|k: int| 0 <= k < costs@.len() ==> old(inv).total(#[trigger] costs@[k].0) <= u32::MAX,
    ensures
        r is Locked <==> !creative && !tech.spec_unlocked(unlock@),
        r is Short <==> !(r is Locked) && charged(creative, costs@) && !affords(old(inv).slots@, costs@),
        r matches PlaceGate::Short(hint) ==> hint@ == hint_text(old(inv).slots@, reg, costs@),
        (r is Paid && charged(creative, costs@)) ==> final(inv).slots@ == spend_slots(old(inv).slots@, costs@),
        !(r is Paid && charged(creative, costs@)) ==> final(inv).slots@ == old(inv).slots@,
{
    if !creative && !tech.machine_unlocked(unlock) {
        return PlaceGate::Locked;
    }
    if creative || costs.len() == 0 {
        return PlaceGate::Paid;
    }
    if inv.try_spend(costs) {
        PlaceGate::Paid
    } else {
        PlaceGate::Short(inv.missing_hint(reg, costs))
    }
}

/// After a paid request: when the world refused the spot, the peer gets the
/// cost back (none was taken in creative mode or for a free building).
pub fn settle_place_request(placed: bool, creative: bool, inv: &mut Inventory, costs: &[(Item, u32)])
    ensures
        !placed && charged(creative, costs@) ==> final(inv).slots@ == refund_slots(old(inv).slots@, costs@),
        !(!placed && charged(creative, costs@)) ==> final(inv).slots@ == old(inv).slots@,
{
    if !placed && !creative && costs.len() > 0 {
        inv.refund(costs);
    }
}

/// The peer's slots after a placement request for `kind` is charged and the
/// world then refuses the spot.
pub open spec fn charged_then_refunded(s: Seq<InvSlot>, kind: BuildingKind, creative: bool) -> Seq<InvSlot> {
    if charged(creative, building_cost(kind)) {
        refund_slots(spend_slots(s, building_cost(kind)), building_cost(kind))
    } else {
        s
    }
}

/// A request that was paid for and then refused by the world costs the
/// peer nothing: after the charge and the refund every item's total is as it
/// was.
pub proof fn lemma_refused_placement_is_free(s: Seq<InvSlot>, kind: BuildingKind, creative: bool)
    requires
        slots_wf(s),
        charged(creative, building_cost(kind)) ==> affords(s, building_cost(kind)),
    ensures
        forall|y: Item| #[trigger] amount_in(charged_then_refunded(s, kind, creative), y) == amount_in(s, y),
{
    lemma_building_cost_distinct(kind);
    if charged(creative, building_cost(kind)) {
        lemma_spend_then_refund(s, building_cost(kind));
    }
}

} // verus!
