//! Player inventory: fixed stack slots, spend-on-place building costs.

use vstd::prelude::*;
use vstd::string::StringExecFns;
use crate::content::registry::ContentRegistry;
use crate::recipes::spec_item_label;
use crate::sim::{
    BuildingKind, Item, BELT_LINK, BRICK, CHARGE_CELL, CIRCUIT_SHARD, COAL, COPPER_INGOT, COPPER_ORE, FRAME,
    GEAR, IRON_INGOT, IRON_ORE, PIPE, POLE_KIT, SCIENCE_GREEN, SCIENCE_RED, SHELL_CASING, SOLAR_CELL, STONE,
    TOTEM_CORE, WIRE,
};
use crate::text::{decimal, push_decimal, push_str};

verus! {

pub const INV_COLS: usize = 10;
pub const INV_ROWS: usize = 4;
pub const INV_SLOTS: usize = INV_COLS * INV_ROWS;
pub const MAX_STACK: u32 = 200;

/// One stack slot. An empty slot holds no item and a count of 0.
#[derive(Clone, Copy, Debug, PartialEq, Eq, Structural)]
pub struct InvSlot {
    pub item: Option<Item>,
    pub count: u32,
}

impl Default for InvSlot {
    fn default() -> (r: Self)
        ensures
            r.item is None,
            r.count == 0,
    {
        InvSlot { item: None, count: 0 }
    }
}

pub open spec fn empty_slot() -> InvSlot {
    InvSlot { item: None, count: 0 }
}

// ---------------------------------------------------------------------------
// Slot sums

/// Sum of `f` over a run of slots.
pub open spec fn slot_sum(s: Seq<InvSlot>, f: spec_fn(InvSlot) -> nat) -> nat
    decreases s.len(),
{
    if s.len() == 0 {
        0
    } else {
        slot_sum(s.drop_last(), f) + f(s.last())
    }
}

/// Units of `x` held in a slot.
pub open spec fn amount_fn(x: Item) -> spec_fn(InvSlot) -> nat {
    |sl: InvSlot| if sl.item == Some(x) { sl.count as nat } else { 0nat }
}

/// Free space left in a slot that already stacks `x`.
pub open spec fn space_fn(x: Item) -> spec_fn(InvSlot) -> nat {
    |sl: InvSlot|
        if sl.item == Some(x) && sl.count < MAX_STACK {
            (MAX_STACK - sl.count) as nat
        } else {
            0nat
        }
}

/// 1 for an empty slot, 0 otherwise.
pub open spec fn empty_fn() -> spec_fn(InvSlot) -> nat {
    |sl: InvSlot| if sl.item is None { 1nat } else { 0nat }
}

pub open spec fn amount_in(s: Seq<InvSlot>, x: Item) -> nat {
    slot_sum(s, amount_fn(x))
}

pub open spec fn space_in(s: Seq<InvSlot>, x: Item) -> nat {
    slot_sum(s, space_fn(x))
}

pub open spec fn empties_in(s: Seq<InvSlot>) -> nat {
    slot_sum(s, empty_fn())
}

/// How many more units of `x` the slots can take: space on existing `x`
/// stacks plus a full stack per empty slot.
pub open spec fn room_in(s: Seq<InvSlot>, x: Item) -> nat {
    space_in(s, x) + (MAX_STACK as nat) * empties_in(s)
}

/// Every slot is a proper stack: at most `MAX_STACK`, empty iff count 0.
pub open spec fn slots_wf(s: Seq<InvSlot>) -> bool {
    forall|i: int|
        0 <= i < s.len() ==> {
            &&& #[trigger] s[i].count <= MAX_STACK
            &&& (s[i].item is None <==> s[i].count == 0)
        }
}

pub proof fn lemma_slot_sum_update(s: Seq<InvSlot>, j: int, v: InvSlot, f: spec_fn(InvSlot) -> nat)
    requires
        0 <= j < s.len(),
    ensures
        slot_sum(s.update(j, v), f) + f(s[j]) == slot_sum(s, f) + f(v),
    decreases s.len(),
{
    if j == s.len() - 1 {
        assert(s.update(j, v).drop_last() =~= s.drop_last());
    } else {
        assert(s.update(j, v).drop_last() =~= s.drop_last().update(j, v));
        lemma_slot_sum_update(s.drop_last(), j, v, f);
    }
}

pub proof fn lemma_slot_sum_take(s: Seq<InvSlot>, i: int, f: spec_fn(InvSlot) -> nat)
    requires
        0 <= i < s.len(),
    ensures
        slot_sum(s.take(i + 1), f) == slot_sum(s.take(i), f) + f(s[i]),
{
    assert(s.take(i + 1).drop_last() =~= s.take(i));
}

pub proof fn lemma_slot_sum_bound(s: Seq<InvSlot>, f: spec_fn(InvSlot) -> nat, b: nat)
    requires
        forall|i: int| 0 <= i < s.len() ==> #[trigger] f(s[i]) <= b,
    ensures
        slot_sum(s, f) <= b * s.len(),
    decreases s.len(),
{
    if s.len() > 0 {
        assert forall|i: int| 0 <= i < s.drop_last().len() implies #[trigger] f(s.drop_last()[i]) <= b by {
            assert(s.drop_last()[i] == s[i]);
        }
        lemma_slot_sum_bound(s.drop_last(), f, b);
        assert(f(s[s.len() - 1]) <= b);
        assert(b * (s.len() - 1) + b == b * s.len()) by (nonlinear_arith);
    }
}

pub proof fn lemma_slot_sum_zero(s: Seq<InvSlot>, f: spec_fn(InvSlot) -> nat)
    requires
        forall|i: int| 0 <= i < s.len() ==> #[trigger] f(s[i]) == 0,
    ensures
        slot_sum(s, f) == 0,
    decreases s.len(),
{
    if s.len() > 0 {
        assert forall|i: int| 0 <= i < s.drop_last().len() implies #[trigger] f(s.drop_last()[i]) == 0 by {
            assert(s.drop_last()[i] == s[i]);
        }
        lemma_slot_sum_zero(s.drop_last(), f);
        assert(f(s[s.len() - 1]) == 0);
    }
}

pub proof fn lemma_slot_sum_prefix_le(s: Seq<InvSlot>, i: int, f: spec_fn(InvSlot) -> nat)
    requires
        0 <= i <= s.len(),
    ensures
        slot_sum(s.take(i), f) <= slot_sum(s, f),
    decreases s.len() - i,
{
    if i < s.len() {
        lemma_slot_sum_take(s, i, f);
        lemma_slot_sum_prefix_le(s, i + 1, f);
    } else {
        assert(s.take(i) =~= s);
    }
}

/// In well-formed slots, no item total exceeds a full inventory.
pub proof fn lemma_amount_bounded(s: Seq<InvSlot>, x: Item)
    requires
        slots_wf(s),
    ensures
        amount_in(s, x) <= MAX_STACK * s.len(),
{
    assert forall|i: int| 0 <= i < s.len() implies #[trigger] amount_fn(x)(s[i]) <= MAX_STACK by {
        assert(s[i].count <= MAX_STACK);
    }
    lemma_slot_sum_bound(s, amount_fn(x), MAX_STACK as nat);
}


// ---------------------------------------------------------------------------
// Stacking and unstacking, slot by slot

/// First pass of adding: top up existing `x` stacks in slot order from `i`.
/// Yields the new slots and the units still to place.
pub open spec fn fill_stacks(s: Seq<InvSlot>, x: Item, n: nat, i: nat) -> (Seq<InvSlot>, nat)
    decreases s.len() - i,
{
    if i >= s.len() || n == 0 {
        (s, n)
    } else if s[i as int].item == Some(x) && s[i as int].count < MAX_STACK {
        let space = (MAX_STACK - s[i as int].count) as nat;
        let take = if n < space { n } else { space };
        fill_stacks(
            s.update(i as int, InvSlot { item: Some(x), count: (s[i as int].count + take) as u32 }),
            x,
            (n - take) as nat,
            i + 1,
        )
    } else {
        fill_stacks(s, x, n, i + 1)
    }
}

/// Second pass of adding: start new `x` stacks in empty slots from `i`.
pub open spec fn fill_empty(s: Seq<InvSlot>, x: Item, n: nat, i: nat) -> (Seq<InvSlot>, nat)
    decreases s.len() - i,
{
    if i >= s.len() || n == 0 {
        (s, n)
    } else if s[i as int].item is None {
        let take = if n < MAX_STACK { n } else { MAX_STACK as nat };
        fill_empty(
            s.update(i as int, InvSlot { item: Some(x), count: take as u32 }),
            x,
            (n - take) as nat,
            i + 1,
        )
    } else {
        fill_empty(s, x, n, i + 1)
    }
}

/// Adding `n` units of `x`: existing stacks first, then empty slots.
/// Yields the new slots and the leftover that did not fit.
pub open spec fn add_to_slots(s: Seq<InvSlot>, x: Item, n: nat) -> (Seq<InvSlot>, nat) {
    if n == 0 {
        (s, 0)
    } else {
        let (s1, n1) = fill_stacks(s, x, n, 0);
        fill_empty(s1, x, n1, 0)
    }
}

/// Taking up to `n` units of `x` from the slots below `k`, last slot first;
/// a stack that runs out becomes an empty slot.
pub open spec fn take_from_slots(s: Seq<InvSlot>, x: Item, n: nat, k: nat) -> Seq<InvSlot>
    decreases k,
{
    if k == 0 || k > s.len() {
        s
    } else {
        let j = (k - 1) as int;
        if s[j].item != Some(x) || n == 0 {
            take_from_slots(s, x, n, (k - 1) as nat)
        } else {
            let c = s[j].count as nat;
            let take = if n < c { n } else { c };
            let left = (c - take) as nat;
            let v = if left == 0 { empty_slot() } else { InvSlot { item: Some(x), count: left as u32 } };
            take_from_slots(s.update(j, v), x, (n - take) as nat, (k - 1) as nat)
        }
    }
}

/// Total units the entries of `costs` ask of `x`.
pub open spec fn need_sum(costs: Seq<(Item, u32)>, x: Item) -> nat
    decreases costs.len(),
{
    if costs.len() == 0 {
        0
    } else {
        need_sum(costs.drop_last(), x) + if costs.last().0 == x { costs.last().1 as nat } else { 0nat }
    }
}

/// Every entry of `costs` is covered by what the slots hold of its item.
pub open spec fn affords(s: Seq<InvSlot>, costs: Seq<(Item, u32)>) -> bool {
    forall|k: int| 0 <= k < costs.len() ==> amount_in(s, #[trigger] costs[k].0) >= costs[k].1
}

/// Slots after taking every entry of `costs` in order.
pub open spec fn spend_slots(s: Seq<InvSlot>, costs: Seq<(Item, u32)>) -> Seq<InvSlot>
    decreases costs.len(),
{
    if costs.len() == 0 {
        s
    } else {
        take_from_slots(
            spend_slots(s, costs.drop_last()),
            costs.last().0,
            costs.last().1 as nat,
            s.len(),
        )
    }
}

/// Slots after adding every entry of `costs` in order (leftovers dropped).
pub open spec fn refund_slots(s: Seq<InvSlot>, costs: Seq<(Item, u32)>) -> Seq<InvSlot>
    decreases costs.len(),
{
    if costs.len() == 0 {
        s
    } else {
        add_to_slots(refund_slots(s, costs.drop_last()), costs.last().0, costs.last().1 as nat).0
    }
}


// ---------------------------------------------------------------------------
// What the passes do to the sums

pub proof fn lemma_fill_stacks(s: Seq<InvSlot>, x: Item, n: nat, i: nat)
    requires
        i <= s.len(),
    ensures
        ({
            let (s2, n2) = fill_stacks(s, x, n, i);
            &&& s2.len() == s.len()
            &&& n2 <= n
            &&& amount_in(s2, x) + n2 == amount_in(s, x) + n
            &&& space_in(s2, x) + n == space_in(s, x) + n2
            &&& empties_in(s2) == empties_in(s)
            &&& forall|y: Item| y != x ==> #[trigger] amount_in(s2, y) == amount_in(s, y)
            &&& forall|y: Item| y != x ==> #[trigger] space_in(s2, y) == space_in(s, y)
            &&& forall|j: int| 0 <= j < s.len() && s[j].item != Some(x) ==> #[trigger] s2[j] == s[j]
            &&& n2 > 0 ==> forall|j: int| i <= j < s.len() ==> #[trigger] space_fn(x)(s2[j]) == 0
            &&& forall|j: int| 0 <= j < i ==> #[trigger] s2[j] == s[j]
            &&& slots_wf(s) ==> slots_wf(s2)
        }),
    decreases s.len() - i,
{
    if i >= s.len() || n == 0 {
    } else if s[i as int].item == Some(x) && s[i as int].count < MAX_STACK {
        let space = (MAX_STACK - s[i as int].count) as nat;
        let take = if n < space { n } else { space };
        let v = InvSlot { item: Some(x), count: (s[i as int].count + take) as u32 };
        let t = s.update(i as int, v);
        lemma_fill_stacks(t, x, (n - take) as nat, i + 1);
        lemma_slot_sum_update(s, i as int, v, amount_fn(x));
        lemma_slot_sum_update(s, i as int, v, space_fn(x));
        lemma_slot_sum_update(s, i as int, v, empty_fn());
        assert forall|y: Item| y != x implies #[trigger] amount_in(t, y) == amount_in(s, y) by {
            lemma_slot_sum_update(s, i as int, v, amount_fn(y));
        }
        assert forall|y: Item| y != x implies #[trigger] space_in(t, y) == space_in(s, y) by {
            lemma_slot_sum_update(s, i as int, v, space_fn(y));
        }
        let (s2, n2) = fill_stacks(s, x, n, i);
        if n2 > 0 {
            assert(take == space);
            assert forall|j: int| i <= j < s.len() implies #[trigger] space_fn(x)(s2[j]) == 0 by {
                if j == i {
                    assert(s2[j] == t[j]);
                }
            }
        }
        if slots_wf(s) {
            assert(slots_wf(t)) by {
                assert forall|j: int| 0 <= j < t.len() implies {
                    &&& #[trigger] t[j].count <= MAX_STACK
                    &&& (t[j].item is None <==> t[j].count == 0)
                } by {
                    if j != i {
                        assert(t[j] == s[j]);
                    }
                }
            }
        }
    } else {
        lemma_fill_stacks(s, x, n, i + 1);
        let (s2, n2) = fill_stacks(s, x, n, i);
        if n2 > 0 {
            assert forall|j: int| i <= j < s.len() implies #[trigger] space_fn(x)(s2[j]) == 0 by {
                if j == i {
                    assert(s2[j] == s[j]);
                }
            }
        }
    }
}

pub proof fn lemma_fill_empty(s: Seq<InvSlot>, x: Item, n: nat, i: nat)
    requires
        i <= s.len(),
    ensures
        ({
            let (s2, n2) = fill_empty(s, x, n, i);
            let u = empties_in(s) - empties_in(s2);
            &&& s2.len() == s.len()
            &&& n2 <= n
            &&& empties_in(s2) <= empties_in(s)
            &&& amount_in(s2, x) + n2 == amount_in(s, x) + n
            &&& n - n2 <= MAX_STACK * u
            &&& u > 0 ==> n - n2 > MAX_STACK * (u - 1)
            &&& n2 > 0 ==> n - n2 == MAX_STACK * u
            &&& forall|y: Item| y != x ==> #[trigger] amount_in(s2, y) == amount_in(s, y)
            &&& forall|y: Item| y != x ==> #[trigger] space_in(s2, y) == space_in(s, y)
            &&& forall|j: int| 0 <= j < s.len() && s[j].item is Some ==> #[trigger] s2[j] == s[j]
            &&& n2 > 0 ==> forall|j: int| i <= j < s.len() ==> #[trigger] s2[j].item is Some
            &&& forall|j: int| 0 <= j < i ==> #[trigger] s2[j] == s[j]
            &&& slots_wf(s) ==> slots_wf(s2)
        }),
    decreases s.len() - i,
{
    if i >= s.len() || n == 0 {
    } else if s[i as int].item is None {
        let take = if n < MAX_STACK { n } else { MAX_STACK as nat };
        let v = InvSlot { item: Some(x), count: take as u32 };
        let t = s.update(i as int, v);
        lemma_fill_empty(t, x, (n - take) as nat, i + 1);
        lemma_slot_sum_update(s, i as int, v, amount_fn(x));
        lemma_slot_sum_update(s, i as int, v, empty_fn());
        assert forall|y: Item| y != x implies #[trigger] amount_in(t, y) == amount_in(s, y) by {
            lemma_slot_sum_update(s, i as int, v, amount_fn(y));
        }
        assert forall|y: Item| y != x implies #[trigger] space_in(t, y) == space_in(s, y) by {
            lemma_slot_sum_update(s, i as int, v, space_fn(y));
        }
        let (s2, n2) = fill_empty(s, x, n, i);
        let ut = empties_in(t) - empties_in(s2);
        assert(empties_in(t) + 1 == empties_in(s));
        if ut > 0 {
            assert(n - take > 0);
            assert(take == MAX_STACK);
        }
        if n2 > 0 {
            assert forall|j: int| i <= j < s.len() implies #[trigger] s2[j].item is Some by {
                if j == i {
                    assert(s2[j] == t[j]);
                }
            }
            assert(n - take > 0);
            assert(take == MAX_STACK);
        }
        if slots_wf(s) {
            assert(slots_wf(t)) by {
                assert forall|j: int| 0 <= j < t.len() implies {
                    &&& #[trigger] t[j].count <= MAX_STACK
                    &&& (t[j].item is None <==> t[j].count == 0)
                } by {
                    if j != i {
                        assert(t[j] == s[j]);
                    }
                }
            }
        }
    } else {
        lemma_fill_empty(s, x, n, i + 1);
        let (s2, n2) = fill_empty(s, x, n, i);
        if n2 > 0 {
            assert forall|j: int| i <= j < s.len() implies #[trigger] s2[j].item is Some by {
                if j == i {
                    assert(s2[j] == s[j]);
                }
            }
        }
    }
}

/// Adding `n` units of `x`: exactly what does not fit is left over, the
/// total of `x` grows by the rest, other items are untouched, and empty
/// slots are only used for what the existing stacks could not hold.
pub proof fn lemma_add_to_slots(s: Seq<InvSlot>, x: Item, n: nat)
    ensures
        ({
            let (s2, r) = add_to_slots(s, x, n);
            let moved = (n - r) as nat;
            let fresh = moved - (if n < space_in(s, x) { n } else { space_in(s, x) });
            let u = empties_in(s) - empties_in(s2);
            &&& s2.len() == s.len()
            &&& r == (if n <= room_in(s, x) { 0 } else { n - room_in(s, x) })
            &&& amount_in(s2, x) == amount_in(s, x) + moved
            &&& forall|y: Item| y != x ==> #[trigger] amount_in(s2, y) == amount_in(s, y)
            &&& forall|y: Item| y != x ==> #[trigger] space_in(s2, y) == space_in(s, y)
            &&& empties_in(s2) <= empties_in(s)
            &&& MAX_STACK * u < fresh + MAX_STACK
            &&& slots_wf(s) ==> slots_wf(s2)
        }),
{
    if n == 0 {
    } else {
        lemma_fill_stacks(s, x, n, 0);
        let (s1, n1) = fill_stacks(s, x, n, 0);
        lemma_fill_empty(s1, x, n1, 0);
        let (s2, r) = fill_empty(s1, x, n1, 0);
        if n1 > 0 {
            lemma_slot_sum_zero(s1, space_fn(x));
        }
        if r > 0 {
            assert forall|j: int| 0 <= j < s2.len() implies #[trigger] empty_fn()(s2[j]) == 0 by {
                assert(s2[j].item is Some);
            }
            lemma_slot_sum_zero(s2, empty_fn());
        }
    }
}

/// Taking up to `n` units of `x` from the slots below `k`.
pub proof fn lemma_take_from_slots(s: Seq<InvSlot>, x: Item, n: nat, k: nat)
    requires
        k <= s.len(),
    ensures
        ({
            let s2 = take_from_slots(s, x, n, k);
            let got = if n < amount_in(s.take(k as int), x) { n } else { amount_in(s.take(k as int), x) };
            &&& s2.len() == s.len()
            &&& amount_in(s2, x) + got == amount_in(s, x)
            &&& forall|y: Item| y != x ==> #[trigger] amount_in(s2, y) == amount_in(s, y)
            &&& forall|y: Item| y != x ==> #[trigger] space_in(s2, y) == space_in(s, y)
            &&& empties_in(s2) >= empties_in(s)
            &&& slots_wf(s) ==> room_in(s2, x) == room_in(s, x) + got
            &&& slots_wf(s) ==> slots_wf(s2)
        }),
    decreases k,
{
    if k == 0 {
        assert(s.take(0) =~= Seq::<InvSlot>::empty());
    } else {
        let j = (k - 1) as int;
        lemma_slot_sum_take(s, j, amount_fn(x));
        if s[j].item != Some(x) || n == 0 {
            lemma_take_from_slots(s, x, n, (k - 1) as nat);
        } else {
            let c = s[j].count as nat;
            let take = if n < c { n } else { c };
            let left = (c - take) as nat;
            let v = if left == 0 { empty_slot() } else { InvSlot { item: Some(x), count: left as u32 } };
            let t = s.update(j, v);
            lemma_take_from_slots(t, x, (n - take) as nat, (k - 1) as nat);
            assert(t.take(j) =~= s.take(j));
            lemma_slot_sum_update(s, j, v, amount_fn(x));
            lemma_slot_sum_update(s, j, v, space_fn(x));
            lemma_slot_sum_update(s, j, v, empty_fn());
            assert forall|y: Item| y != x implies #[trigger] amount_in(t, y) == amount_in(s, y) by {
                lemma_slot_sum_update(s, j, v, amount_fn(y));
            }
            assert forall|y: Item| y != x implies #[trigger] space_in(t, y) == space_in(s, y) by {
                lemma_slot_sum_update(s, j, v, space_fn(y));
            }
            if slots_wf(s) {
                assert(s[j].count <= MAX_STACK);
                assert(slots_wf(t)) by {
                    assert forall|i: int| 0 <= i < t.len() implies {
                        &&& #[trigger] t[i].count <= MAX_STACK
                        &&& (t[i].item is None <==> t[i].count == 0)
                    } by {
                        if i != j {
                            assert(t[i] == s[i]);
                        }
                    }
                }
            }
        }
    }
}

// ---------------------------------------------------------------------------
// Spending and refunding cost lists

/// No item appears twice in `costs`.
pub open spec fn distinct_items(costs: Seq<(Item, u32)>) -> bool {
    forall|i: int, j: int| 0 <= i < j < costs.len() ==> costs[i].0 != costs[j].0
}

/// `x` is not named by any entry of `costs`.
pub open spec fn not_named(costs: Seq<(Item, u32)>, x: Item) -> bool {
    forall|k: int| 0 <= k < costs.len() ==> #[trigger] costs[k].0 != x
}

pub open spec fn nat_sum(c: Seq<nat>) -> nat
    decreases c.len(),
{
    if c.len() == 0 {
        0
    } else {
        nat_sum(c.drop_last()) + c.last()
    }
}

pub proof fn lemma_need_sum_unnamed(costs: Seq<(Item, u32)>, x: Item)
    requires
        not_named(costs, x),
    ensures
        need_sum(costs, x) == 0,
    decreases costs.len(),
{
    if costs.len() > 0 {
        lemma_need_sum_unnamed(costs.drop_last(), x);
        assert(costs.last().0 != x);
    }
}

/// With distinct items, what the list asks of `x` is covered when each
/// entry is.
pub proof fn lemma_need_sum_afforded(s: Seq<InvSlot>, costs: Seq<(Item, u32)>, x: Item)
    requires
        distinct_items(costs),
        affords(s, costs),
    ensures
        need_sum(costs, x) <= amount_in(s, x),
    decreases costs.len(),
{
    if costs.len() > 0 {
        let d = costs.drop_last();
        lemma_need_sum_afforded(s, d, x);
        if costs.last().0 == x {
            assert(not_named(d, x));
            lemma_need_sum_unnamed(d, x);
            assert(amount_in(s, costs[costs.len() - 1].0) >= costs[costs.len() - 1].1);
        }
    }
}

/// Spending a cost list lowers each item's total by what the list asks of
/// it, stopping at zero.
pub proof fn lemma_spend_slots(s: Seq<InvSlot>, costs: Seq<(Item, u32)>)
    ensures
        spend_slots(s, costs).len() == s.len(),
        forall|y: Item| #[trigger] amount_in(spend_slots(s, costs), y) == amount_in(s, y) - (
            if need_sum(costs, y) < amount_in(s, y) { need_sum(costs, y) } else { amount_in(s, y) }),
        slots_wf(s) ==> slots_wf(spend_slots(s, costs)),
    decreases costs.len(),
{
    if costs.len() > 0 {
        let d = costs.drop_last();
        lemma_spend_slots(s, d);
        let t = spend_slots(s, d);
        let (x, n) = costs.last();
        lemma_take_from_slots(t, x, n as nat, s.len());
        assert(t.take(s.len() as int) =~= t);
    }
}

/// Spending an afforded list of distinct items: each entry's units are
/// freed as stack space on its item plus, per cleared stack, a whole empty
/// slot (`c[k]` of them for entry `k`).
pub proof fn lemma_spend_budget(s: Seq<InvSlot>, costs: Seq<(Item, u32)>) -> (c: Seq<nat>)
    requires
        slots_wf(s),
        distinct_items(costs),
        affords(s, costs),
    ensures
        c.len() == costs.len(),
        forall|k: int| 0 <= k < costs.len() ==> #[trigger] costs[k].1 <= space_in(spend_slots(s, costs), costs[k].0)
            + MAX_STACK * c[k],
        empties_in(spend_slots(s, costs)) >= empties_in(s) + nat_sum(c),
    decreases costs.len(),
{
    if costs.len() == 0 {
        Seq::empty()
    } else {
        let d = costs.drop_last();
        let c1 = lemma_spend_budget(s, d);
        lemma_spend_slots(s, d);
        let t = spend_slots(s, d);
        let (x, n) = costs.last();
        assert(not_named(d, x));
        lemma_need_sum_unnamed(d, x);
        assert(amount_in(s, costs[costs.len() - 1].0) >= costs[costs.len() - 1].1);
        lemma_take_from_slots(t, x, n as nat, s.len());
        assert(t.take(s.len() as int) =~= t);
        let s1 = spend_slots(s, costs);
        let cl = (empties_in(s1) - empties_in(t)) as nat;
        let c = c1.push(cl);
        assert(c.drop_last() =~= c1);
        assert forall|k: int| 0 <= k < costs.len() implies #[trigger] costs[k].1 <= space_in(s1, costs[k].0)
            + MAX_STACK * c[k] by {
            if k < costs.len() - 1 {
                assert(costs[k] == d[k]);
                assert(costs[k].0 != x);
                assert(space_in(s1, costs[k].0) == space_in(t, costs[k].0));
            }
        }
        c
    }
}

/// Refunding a list of distinct items into slots with enough room for each
/// (stack space plus its share `c[k]` of the empty slots) gives every unit
/// back and uses no more empty slots than the shares.
pub proof fn lemma_refund_budget(t: Seq<InvSlot>, costs: Seq<(Item, u32)>, c: Seq<nat>)
    requires
        slots_wf(t),
        distinct_items(costs),
        c.len() == costs.len(),
        forall|k: int| 0 <= k < costs.len() ==> #[trigger] costs[k].1 <= space_in(t, costs[k].0) + MAX_STACK * c[k],
        empties_in(t) >= nat_sum(c),
    ensures
        ({
            let r = refund_slots(t, costs);
            &&& slots_wf(r)
            &&& forall|y: Item| #[trigger] amount_in(r, y) == amount_in(t, y) + need_sum(costs, y)
            &&& forall|y: Item| not_named(costs, y) ==> #[trigger] space_in(r, y) == space_in(t, y)
            &&& empties_in(r) + nat_sum(c) >= empties_in(t)
        }),
    decreases costs.len(),
{
    if costs.len() > 0 {
        let d = costs.drop_last();
        let cd = c.drop_last();
        assert forall|k: int| 0 <= k < d.len() implies #[trigger] d[k].1 <= space_in(t, d[k].0) + MAX_STACK * cd[k] by {
            assert(d[k] == costs[k]);
        }
        lemma_refund_budget(t, d, cd);
        let r1 = refund_slots(t, d);
        let (x, n) = costs.last();
        let cl = c.last();
        assert(not_named(d, x));
        lemma_need_sum_unnamed(d, x);
        assert(space_in(r1, x) == space_in(t, x));
        assert(n <= space_in(t, costs[costs.len() - 1].0) + MAX_STACK * c[costs.len() - 1]);
        lemma_add_to_slots(r1, x, n as nat);
        let r = refund_slots(t, costs);
        assert forall|y: Item| not_named(costs, y) implies #[trigger] space_in(r, y) == space_in(t, y) by {
            assert(costs[costs.len() - 1].0 != y);
            assert(not_named(d, y)) by {
                assert forall|k: int| 0 <= k < d.len() implies #[trigger] d[k].0 != y by {
                    assert(d[k] == costs[k]);
                }
            }
        }
    }
}

/// Placing then removing a building gives its materials back: spending an
/// afforded list of distinct items and then refunding the same list leaves
/// every item's total as it was.
pub proof fn lemma_spend_then_refund(s: Seq<InvSlot>, costs: Seq<(Item, u32)>)
    requires
        slots_wf(s),
        distinct_items(costs),
        affords(s, costs),
    ensures
        forall|y: Item| #[trigger] amount_in(refund_slots(spend_slots(s, costs), costs), y) == amount_in(s, y),
{
    let c = lemma_spend_budget(s, costs);
    lemma_spend_slots(s, costs);
    let t = spend_slots(s, costs);
    lemma_refund_budget(t, costs, c);
    assert forall|y: Item| #[trigger] amount_in(refund_slots(t, costs), y) == amount_in(s, y) by {
        lemma_need_sum_afforded(s, costs, y);
    }
}

// ---------------------------------------------------------------------------
// Starter kit and shortfall text

pub open spec fn empty_slots() -> Seq<InvSlot> {
    Seq::new(INV_SLOTS as nat, |i: int| empty_slot())
}

pub open spec fn starter_kit() -> Seq<(Item, u32)> {
    seq![
        (Item(IRON_ORE), 240u32),
        (Item(COPPER_ORE), 120u32),
        (Item(STONE), 80u32),
        (Item(COAL), 80u32),
        (Item(IRON_INGOT), 160u32),
        (Item(COPPER_INGOT), 80u32),
        (Item(GEAR), 40u32),
        (Item(WIRE), 40u32),
        (Item(BRICK), 40u32),
        (Item(FRAME), 12u32),
        (Item(BELT_LINK), 80u32),
        (Item(POLE_KIT), 20u32),
        (Item(SOLAR_CELL), 8u32),
        (Item(CIRCUIT_SHARD), 6u32),
        (Item(SHELL_CASING), 8u32),
        (Item(CHARGE_CELL), 4u32),
        (Item(TOTEM_CORE), 2u32),
        (Item(SCIENCE_RED), 40u32),
        (Item(SCIENCE_GREEN), 20u32),
    ]
}

pub proof fn lemma_refund_slots_wf(s: Seq<InvSlot>, costs: Seq<(Item, u32)>)
    requires
        slots_wf(s),
    ensures
        slots_wf(refund_slots(s, costs)),
        refund_slots(s, costs).len() == s.len(),
    decreases costs.len(),
{
    if costs.len() > 0 {
        lemma_refund_slots_wf(s, costs.drop_last());
        lemma_add_to_slots(refund_slots(s, costs.drop_last()), costs.last().0, costs.last().1 as nat);
    }
}

/// `"<missing> <label> (have <have>)"`.
pub open spec fn shortfall_text(missing: nat, label: Seq<char>, have: nat) -> Seq<char> {
    decimal(missing) + " "@ + label + " (have "@ + decimal(have) + ")"@
}

/// One text per cost entry that the slots do not cover, in order.
pub open spec fn shortfalls(s: Seq<InvSlot>, reg: Option<&ContentRegistry>, costs: Seq<(Item, u32)>) -> Seq<Seq<char>>
    decreases costs.len(),
{
    if costs.len() == 0 {
        Seq::empty()
    } else {
        let rest = shortfalls(s, reg, costs.drop_last());
        let (x, need) = costs.last();
        let have = amount_in(s, x);
        if have < need {
            rest.push(shortfall_text((need - have) as nat, spec_item_label(reg, x), have))
        } else {
            rest
        }
    }
}

/// Texts joined with `", "`.
pub open spec fn join_parts(parts: Seq<Seq<char>>) -> Seq<char>
    decreases parts.len(),
{
    if parts.len() == 0 {
        Seq::empty()
    } else if parts.len() == 1 {
        parts[0]
    } else {
        join_parts(parts.drop_last()) + ", "@ + parts.last()
    }
}

pub open spec fn hint_text(s: Seq<InvSlot>, reg: Option<&ContentRegistry>, costs: Seq<(Item, u32)>) -> Seq<char> {
    let parts = shortfalls(s, reg, costs);
    if parts.len() == 0 {
        "Can't afford"@
    } else {
        "Need "@ + join_parts(parts)
    }
}

// ---------------------------------------------------------------------------
// The inventory

/// Factorio-style stack slots.
#[derive(Clone, Debug)]
pub struct Inventory {
    pub slots: [InvSlot; INV_SLOTS],
}

impl Inventory {
    /// Units of `x` held across all slots.
    pub open spec fn total(&self, x: Item) -> nat {
        amount_in(self.slots@, x)
    }

    pub open spec fn wf(&self) -> bool {
        slots_wf(self.slots@)
    }

    pub fn empty() -> (r: Self)
        ensures
            forall|i: int| 0 <= i < INV_SLOTS ==> #[trigger] r.slots@[i] == empty_slot(),
            r.wf(),
    {
        let r = Inventory { slots: [InvSlot { item: None, count: 0 }; INV_SLOTS] };
        assert forall|i: int| 0 <= i < INV_SLOTS implies #[trigger] r.slots@[i] == empty_slot() by {
            assert(r.slots@[i] == r.slots[i]);
        }
        r
    }

    pub fn count(&self, item: Item) -> (r: u32)
        requires
            self.total(item) <= u32::MAX,
        ensures
            r == self.total(item),
    {
        let ghost s = self.slots@;
        let mut sum: u32 = 0;
        let mut i: usize = 0;
        while i < INV_SLOTS
            invariant
                i <= INV_SLOTS,
                s == self.slots@,
                s.len() == INV_SLOTS,
                amount_in(s, item) <= u32::MAX,
                sum == slot_sum(s.take(i as int), amount_fn(item)),
            decreases INV_SLOTS - i,
        {
            proof {
                lemma_slot_sum_take(s, i as int, amount_fn(item));
                lemma_slot_sum_prefix_le(s, (i + 1) as int, amount_fn(item));
            }
            let slot = self.slots[i];
            if slot.item == Some(item) {
                sum = sum + slot.count;
            }
            i += 1;
        }
        assert(s.take(INV_SLOTS as int) =~= s);
        sum
    }

    /// Add items, stacking into existing then empty slots. Returns leftover that did not fit.
    pub fn add(&mut self, item: Item, n_in: u32) -> (r: u32)
        ensures
            (final(self).slots@, r as nat) == add_to_slots(old(self).slots@, item, n_in as nat),
    {
        let n = n_in;
        if n == 0 {
            return 0;
        }
        let ghost s0 = self.slots@;
        let ghost n0 = n;
        let mut n = n;
        let mut i: usize = 0;
        while i < INV_SLOTS
            invariant
                i <= INV_SLOTS,
                n > 0,
                self.slots@.len() == INV_SLOTS,
                s0 == old(self).slots@,
                n0 == n_in,
                fill_stacks(s0, item, n0 as nat, 0) == fill_stacks(self.slots@, item, n as nat, i as nat),
            decreases INV_SLOTS - i,
        {
            let slot = self.slots[i];
            if slot.item == Some(item) && slot.count < MAX_STACK {
                let space = MAX_STACK - slot.count;
                let take = if n < space { n } else { space };
                self.slots[i] = InvSlot { item: Some(item), count: slot.count + take };
                n = n - take;
                if n == 0 {
                    assert(fill_stacks(self.slots@, item, 0, (i + 1) as nat) == (self.slots@, 0nat));
                    assert(fill_stacks(s0, item, n0 as nat, 0) == (self.slots@, 0nat));
                    assert(fill_empty(self.slots@, item, 0, 0) == (self.slots@, 0nat));
                    assert(add_to_slots(s0, item, n0 as nat) == (self.slots@, 0nat));
                    return 0;
                }
            }
            i += 1;
        }
        let ghost s1 = self.slots@;
        let ghost n1 = n as nat;
        let mut i: usize = 0;
        while i < INV_SLOTS
            invariant
                i <= INV_SLOTS,
                n > 0,
                self.slots@.len() == INV_SLOTS,
                s0 == old(self).slots@,
                n0 == n_in,
                fill_stacks(s0, item, n0 as nat, 0) == (s1, n1),
                fill_empty(s1, item, n1, 0) == fill_empty(self.slots@, item, n as nat, i as nat),
            decreases INV_SLOTS - i,
        {
            let slot = self.slots[i];
            if slot.item.is_none() {
                let take = if n < MAX_STACK { n } else { MAX_STACK };
                self.slots[i] = InvSlot { item: Some(item), count: take };
                n = n - take;
                if n == 0 {
                    assert(fill_empty(self.slots@, item, 0, (i + 1) as nat) == (self.slots@, 0nat));
                    assert(fill_empty(s1, item, n1, 0) == (self.slots@, 0nat));
                    assert(add_to_slots(s0, item, n0 as nat) == (self.slots@, 0nat));
                    return 0;
                }
            }
            i += 1;
        }
        n
    }

    /// Iron ore held (the legacy "ore" total).
    pub fn ore(&self) -> (r: u32)
        requires
            self.total(Item(IRON_ORE)) <= u32::MAX,
        ensures
            r == self.total(Item(IRON_ORE)),
    {
        self.count(Item(IRON_ORE))
    }

    /// Iron ingots held (the legacy "ingot" total).
    pub fn ingot(&self) -> (r: u32)
        requires
            self.total(Item(IRON_INGOT)) <= u32::MAX,
        ensures
            r == self.total(Item(IRON_INGOT)),
    {
        self.count(Item(IRON_INGOT))
    }

    /// An inventory holding just the given iron ore and ingot totals.
    pub fn from_totals(ore: u32, ingot: u32) -> (r: Self)
        ensures
            r.slots@ == refund_slots(empty_slots(), seq![(Item(IRON_ORE), ore), (Item(IRON_INGOT), ingot)]),
            r.wf(),
    {
        let mut inv = Self::empty();
        assert(inv.slots@ =~= empty_slots());
        let kit = [(Item(IRON_ORE), ore), (Item(IRON_INGOT), ingot)];
        assert(kit@ =~= seq![(Item(IRON_ORE), ore), (Item(IRON_INGOT), ingot)]);
        inv.refund(&kit);
        proof {
            lemma_refund_slots_wf(empty_slots(), kit@);
        }
        inv
    }

    /// Generous starter kit so a new factory can bootstrap Era 0.
    pub fn starter() -> (r: Self)
        ensures
            r.slots@ == refund_slots(empty_slots(), starter_kit()),
            r.wf(),
    {
        let mut inv = Self::empty();
        assert(inv.slots@ =~= empty_slots());
        let kit = [
            (Item(IRON_ORE), 240u32),
            (Item(COPPER_ORE), 120),
            (Item(STONE), 80),
            (Item(COAL), 80),
            (Item(IRON_INGOT), 160),
            (Item(COPPER_INGOT), 80),
            (Item(GEAR), 40),
            (Item(WIRE), 40),
            (Item(BRICK), 40),
            (Item(FRAME), 12),
            (Item(BELT_LINK), 80),
            (Item(POLE_KIT), 20),
            (Item(SOLAR_CELL), 8),
            (Item(CIRCUIT_SHARD), 6),
            (Item(SHELL_CASING), 8),
            (Item(CHARGE_CELL), 4),
            (Item(TOTEM_CORE), 2),
            (Item(SCIENCE_RED), 40),
            (Item(SCIENCE_GREEN), 20),
        ];
        assert(kit@ =~= starter_kit());
        inv.refund(&kit);
        proof {
            lemma_refund_slots_wf(empty_slots(), kit@);
        }
        inv
    }

    /// "Need …" text naming each shortfall, or "Can't afford" when there is none.
    pub fn missing_hint(&self, reg: Option<&ContentRegistry>, costs: &[(Item, u32)]) -> (r: String)
        requires
            forall|k: int| 0 <= k < costs@.len() ==> self.total(#[trigger] costs@[k].0) <= u32::MAX,
        ensures
            r@ == hint_text(self.slots@, reg, costs@),
    {
        let mut body = String::new();
        let mut any = false;
        let mut k: usize = 0;
        while k < costs.len()
            invariant
                k <= costs@.len(),
                forall|j: int| 0 <= j < costs@.len() ==> self.total(#[trigger] costs@[j].0) <= u32::MAX,
                any == (shortfalls(self.slots@, reg, costs@.take(k as int)).len() > 0),
                body@ == join_parts(shortfalls(self.slots@, reg, costs@.take(k as int))),
            decreases costs@.len() - k,
        {
            let ghost prev = shortfalls(self.slots@, reg, costs@.take(k as int));
            assert(costs@.take(k + 1).drop_last() =~= costs@.take(k as int));
            let (item, need) = costs[k];
            let have = self.count(item);
            if have < need {
                let ghost part = shortfall_text((need - have) as nat, crate::recipes::spec_item_label(reg, item), have as nat);
                let ghost body0 = body@;
                if any {
                    push_str(&mut body, ", ");
                }
                push_decimal(&mut body, (need - have) as u64);
                push_str(&mut body, " ");
                push_str(&mut body, crate::recipes::item_label(reg, item));
                push_str(&mut body, " (have ");
                push_decimal(&mut body, have as u64);
                push_str(&mut body, ")");
                assert(shortfalls(self.slots@, reg, costs@.take(k + 1)) == prev.push(part));
                assert(prev.push(part).drop_last() =~= prev);
                if any {
                    assert(body@ =~= body0 + ", "@ + part);
                } else {
                    assert(body@ =~= part);
                }
                any = true;
            }
            k += 1;
        }
        assert(costs@.take(costs@.len() as int) =~= costs@);
        if !any {
            String::from_str("Can't afford")
        } else {
            let mut out = String::from_str("Need ");
            out.append(body.as_str());
            out
        }
    }

    /// Every cost entry is covered by what the inventory holds of its item.
    pub fn can_afford(&self, costs: &[(Item, u32)]) -> (r: bool)
        requires
            forall|k: int| 0 <= k < costs@.len() ==> self.total(#[trigger] costs@[k].0) <= u32::MAX,
        ensures
            r == affords(self.slots@, costs@),
    {
        let mut k: usize = 0;
        while k < costs.len()
            invariant
                k <= costs@.len(),
                forall|j: int| 0 <= j < costs@.len() ==> self.total(#[trigger] costs@[j].0) <= u32::MAX,
                forall|j: int| 0 <= j < k ==> amount_in(self.slots@, #[trigger] costs@[j].0) >= costs@[j].1,
            decreases costs@.len() - k,
        {
            let (item, need) = costs[k];
            if self.count(item) < need {
                return false;
            }
            k += 1;
        }
        true
    }

    /// Spend every cost entry if all are covered; otherwise change nothing.
    pub fn try_spend(&mut self, costs: &[(Item, u32)]) -> (r: bool)
        requires
            forall|k: int| 0 <= k < costs@.len() ==> old(self).total(#[trigger] costs@[k].0) <= u32::MAX,
        ensures
            r == affords(old(self).slots@, costs@),
            r ==> final(self).slots@ == spend_slots(old(self).slots@, costs@),
            !r ==> final(self).slots@ == old(self).slots@,
            r ==> forall|y: Item| #[trigger] final(self).total(y) == old(self).total(y) - (if need_sum(costs@, y)
                < old(self).total(y) { need_sum(costs@, y) } else { old(self).total(y) }),
    {
        if !self.can_afford(costs) {
            return false;
        }
        let ghost s0 = self.slots@;
        let mut k: usize = 0;
        while k < costs.len()
            invariant
                k <= costs@.len(),
                s0 == old(self).slots@,
                s0.len() == INV_SLOTS,
                self.slots@ == spend_slots(s0, costs@.take(k as int)),
            decreases costs@.len() - k,
        {
            let (item, need) = costs[k];
            self.remove(item, need);
            assert(costs@.take(k + 1).drop_last() =~= costs@.take(k as int));
            k += 1;
        }
        assert(costs@.take(costs@.len() as int) =~= costs@);
        proof {
            lemma_spend_slots(s0, costs@);
        }
        true
    }

    /// Give back every cost entry (whatever does not fit is dropped).
    pub fn refund(&mut self, costs: &[(Item, u32)])
        ensures
            final(self).slots@ == refund_slots(old(self).slots@, costs@),
    {
        let ghost s0 = self.slots@;
        let mut k: usize = 0;
        while k < costs.len()
            invariant
                k <= costs@.len(),
                s0 == old(self).slots@,
                self.slots@ == refund_slots(s0, costs@.take(k as int)),
            decreases costs@.len() - k,
        {
            let (item, n) = costs[k];
            let _ = self.add(item, n);
            assert(costs@.take(k + 1).drop_last() =~= costs@.take(k as int));
            k += 1;
        }
        assert(costs@.take(costs@.len() as int) =~= costs@);
    }

    /// Take up to `n` units of `item`, last slot first.
    fn remove(&mut self, item: Item, n_in: u32)
        ensures
            final(self).slots@ == take_from_slots(old(self).slots@, item, n_in as nat, INV_SLOTS as nat),
    {
        let ghost s0 = self.slots@;
        let ghost n0 = n_in;
        let mut n = n_in;
        let mut k: usize = INV_SLOTS;
        while k > 0
            invariant
                k <= INV_SLOTS,
                s0 == old(self).slots@,
                n0 == n_in,
                self.slots@.len() == INV_SLOTS,
                take_from_slots(s0, item, n0 as nat, INV_SLOTS as nat) == take_from_slots(
                    self.slots@,
                    item,
                    n as nat,
                    k as nat,
                ),
            decreases k,
        {
            let j = k - 1;
            let slot = self.slots[j];
            if slot.item == Some(item) && n != 0 {
                let take = if n < slot.count { n } else { slot.count };
                let left = slot.count - take;
                if left == 0 {
                    self.slots[j] = InvSlot { item: None, count: 0 };
                } else {
                    self.slots[j] = InvSlot { item: Some(item), count: left };
                }
                n = n - take;
            }
            k = j;
        }
    }
}


impl Default for Inventory {
    fn default() -> (r: Self)
        ensures
            r.slots@ == refund_slots(empty_slots(), starter_kit()),
            r.wf(),
    {
        Self::starter()
    }
}

pub fn item_label<'a>(reg: Option<&'a ContentRegistry>, item: Item) -> (r: &'a str)
    ensures
        r@ == spec_item_label(reg, item),
{
    crate::recipes::item_label(reg, item)
}

/// Materials spent when placing a ground building.
pub open spec fn building_cost(kind: BuildingKind) -> Seq<(Item, u32)> {
    match kind {
        BuildingKind::PowerPole => seq![(Item(POLE_KIT), 1u32)],
        BuildingKind::Solar => seq![(Item(SOLAR_CELL), 1u32), (Item(FRAME), 1u32)],
        BuildingKind::OreNode => seq![(Item(IRON_INGOT), 8u32), (Item(GEAR), 4u32)],
        BuildingKind::Smelter => seq![(Item(FRAME), 1u32), (Item(BRICK), 4u32)],
        BuildingKind::Assembler | BuildingKind::Machine => seq![
            (Item(FRAME), 2u32),
            (Item(GEAR), 4u32),
            (Item(CIRCUIT_SHARD), 1u32),
        ],
        BuildingKind::Lab => seq![(Item(FRAME), 2u32), (Item(CIRCUIT_SHARD), 2u32), (Item(WIRE), 4u32)],
        BuildingKind::Box => seq![(Item(IRON_INGOT), 4u32)],
        BuildingKind::FluidTank => seq![(Item(IRON_INGOT), 6u32), (Item(PIPE), 4u32)],
        BuildingKind::Splitter => seq![(Item(BELT_LINK), 2u32), (Item(GEAR), 2u32)],
        BuildingKind::Pipe => seq![(Item(PIPE), 1u32)],
        BuildingKind::Totem => seq![(Item(TOTEM_CORE), 1u32), (Item(FRAME), 2u32)],
        BuildingKind::Wall => seq![(Item(BRICK), 2u32)],
        BuildingKind::ReinforcedWall => seq![(Item(BRICK), 4u32), (Item(IRON_INGOT), 2u32)],
        BuildingKind::BallisticTurret => seq![(Item(FRAME), 1u32), (Item(SHELL_CASING), 4u32), (Item(GEAR), 2u32)],
        BuildingKind::Turret => seq![(Item(FRAME), 1u32), (Item(SHELL_CASING), 2u32), (Item(CHARGE_CELL), 1u32)],
        BuildingKind::LaserTurret => seq![
            (Item(FRAME), 2u32),
            (Item(CIRCUIT_SHARD), 2u32),
            (Item(CHARGE_CELL), 2u32),
        ],
        BuildingKind::NexusSite => seq![(Item(FRAME), 8u32), (Item(GEAR), 8u32), (Item(CIRCUIT_SHARD), 4u32)],
        BuildingKind::Nexus => seq![(Item(FRAME), 20u32), (Item(TOTEM_CORE), 4u32)],
        BuildingKind::PowerWire | BuildingKind::Conveyor | BuildingKind::SpawnAssault | BuildingKind::SpawnHunter
        | BuildingKind::SpawnSaboteur | BuildingKind::SpawnFogcaller | BuildingKind::SpawnNest => seq![],
    }
}

/// Materials spent when placing a ground building (tools and debug spawners are free).
pub fn building_recipe(kind: BuildingKind) -> (r: Vec<(Item, u32)>)
    ensures
        r@ == building_cost(kind),
{
    let r = match kind {
        BuildingKind::PowerPole => vec![(Item(POLE_KIT), 1u32)],
        BuildingKind::Solar => vec![(Item(SOLAR_CELL), 1u32), (Item(FRAME), 1)],
        BuildingKind::OreNode => vec![(Item(IRON_INGOT), 8u32), (Item(GEAR), 4)],
        BuildingKind::Smelter => vec![(Item(FRAME), 1u32), (Item(BRICK), 4)],
        BuildingKind::Assembler | BuildingKind::Machine => vec![
            (Item(FRAME), 2u32),
            (Item(GEAR), 4),
            (Item(CIRCUIT_SHARD), 1),
        ],
        BuildingKind::Lab => vec![(Item(FRAME), 2u32), (Item(CIRCUIT_SHARD), 2), (Item(WIRE), 4)],
        BuildingKind::Box => vec![(Item(IRON_INGOT), 4u32)],
        BuildingKind::FluidTank => vec![(Item(IRON_INGOT), 6u32), (Item(PIPE), 4)],
        BuildingKind::Splitter => vec![(Item(BELT_LINK), 2u32), (Item(GEAR), 2)],
        BuildingKind::Pipe => vec![(Item(PIPE), 1u32)],
        BuildingKind::Totem => vec![(Item(TOTEM_CORE), 1u32), (Item(FRAME), 2)],
        BuildingKind::Wall => vec![(Item(BRICK), 2u32)],
        BuildingKind::ReinforcedWall => vec![(Item(BRICK), 4u32), (Item(IRON_INGOT), 2)],
        BuildingKind::BallisticTurret => vec![(Item(FRAME), 1u32), (Item(SHELL_CASING), 4), (Item(GEAR), 2)],
        BuildingKind::Turret => vec![(Item(FRAME), 1u32), (Item(SHELL_CASING), 2), (Item(CHARGE_CELL), 1)],
        BuildingKind::LaserTurret => vec![(Item(FRAME), 2u32), (Item(CIRCUIT_SHARD), 2), (Item(CHARGE_CELL), 2)],
        BuildingKind::NexusSite => vec![(Item(FRAME), 8u32), (Item(GEAR), 8), (Item(CIRCUIT_SHARD), 4)],
        BuildingKind::Nexus => vec![(Item(FRAME), 20u32), (Item(TOTEM_CORE), 4)],
        BuildingKind::PowerWire | BuildingKind::Conveyor | BuildingKind::SpawnAssault | BuildingKind::SpawnHunter
        | BuildingKind::SpawnSaboteur | BuildingKind::SpawnFogcaller | BuildingKind::SpawnNest => Vec::new(),
    };
    assert(r@ =~= building_cost(kind));
    r
}

/// Materials spent per belt tile.
pub fn belt_recipe() -> (r: Vec<(Item, u32)>)
    ensures
        r@ == seq![(Item(BELT_LINK), 1u32)],
{
    let r = vec![(Item(BELT_LINK), 1u32)];
    assert(r@ =~= seq![(Item(BELT_LINK), 1u32)]);
    r
}

/// Every building cost names each item at most once, so placing and then
/// removing a building restores the inventory exactly.
pub proof fn lemma_building_cost_distinct(kind: BuildingKind)
    ensures
        distinct_items(building_cost(kind)),
{
}

} // verus!
