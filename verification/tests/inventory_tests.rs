use factory_planner::inventory::{
    belt_recipe, building_recipe, item_label, InvSlot, Inventory, INV_SLOTS, MAX_STACK,
};
use factory_planner::sim::{
    BuildingKind, Item, BELT_LINK, COAL, FRAME, GEAR, IRON_INGOT, IRON_ORE, POLE_KIT, SCIENCE_GREEN,
    SOLAR_CELL, STONE,
};

#[test]
fn empty_inventory_holds_nothing() {
    let inv = Inventory::empty();
    assert_eq!(inv.slots.len(), INV_SLOTS);
    assert!(inv.slots.iter().all(|s| s.item.is_none() && s.count == 0));
    assert_eq!(inv.count(Item(IRON_ORE)), 0);
}

#[test]
fn add_stacks_then_fills_empty_slots() {
    let mut inv = Inventory::empty();
    assert_eq!(inv.add(Item(IRON_ORE), 150), 0);
    assert_eq!(inv.add(Item(IRON_ORE), 100), 0);
    // First stack topped up to 200, the rest starts a new stack.
    assert_eq!(inv.slots[0], InvSlot { item: Some(Item(IRON_ORE)), count: 200 });
    assert_eq!(inv.slots[1], InvSlot { item: Some(Item(IRON_ORE)), count: 50 });
    assert_eq!(inv.count(Item(IRON_ORE)), 250);
}

#[test]
fn add_zero_changes_nothing() {
    let mut inv = Inventory::empty();
    assert_eq!(inv.add(Item(COAL), 0), 0);
    assert!(inv.slots.iter().all(|s| s.item.is_none()));
}

#[test]
fn add_reports_leftover_when_full() {
    let mut inv = Inventory::empty();
    let room = INV_SLOTS as u32 * MAX_STACK;
    assert_eq!(inv.add(Item(STONE), room + 7), 7);
    assert_eq!(inv.count(Item(STONE)), room);
    assert_eq!(inv.add(Item(COAL), 5), 5);
    assert_eq!(inv.count(Item(COAL)), 0);
}

#[test]
fn add_leaves_other_items_alone() {
    let mut inv = Inventory::empty();
    inv.add(Item(GEAR), 30);
    inv.add(Item(IRON_INGOT), 420);
    assert_eq!(inv.count(Item(GEAR)), 30);
    assert_eq!(inv.count(Item(IRON_INGOT)), 420);
}

#[test]
fn from_totals_and_accessors() {
    let inv = Inventory::from_totals(12, 340);
    assert_eq!(inv.ore(), 12);
    assert_eq!(inv.ingot(), 340);
}

#[test]
fn starter_kit_contents() {
    let inv = Inventory::starter();
    assert_eq!(inv.count(Item(IRON_ORE)), 240);
    assert_eq!(inv.count(Item(FRAME)), 12);
    assert_eq!(inv.count(Item(SCIENCE_GREEN)), 20);
    // 240 iron ore needs two slots; the first is full.
    assert_eq!(inv.slots[0], InvSlot { item: Some(Item(IRON_ORE)), count: 200 });
    assert_eq!(inv.slots[1], InvSlot { item: Some(Item(IRON_ORE)), count: 40 });
    let d = Inventory::default();
    assert_eq!(d.slots, inv.slots);
}

#[test]
fn can_afford_checks_each_entry() {
    let inv = Inventory::from_totals(0, 10);
    assert!(inv.can_afford(&[(Item(IRON_INGOT), 10)]));
    assert!(!inv.can_afford(&[(Item(IRON_INGOT), 11)]));
    assert!(!inv.can_afford(&[(Item(IRON_INGOT), 1), (Item(GEAR), 1)]));
    assert!(inv.can_afford(&[]));
}

#[test]
fn try_spend_refuses_without_changing() {
    let mut inv = Inventory::from_totals(5, 5);
    let before = inv.slots;
    assert!(!inv.try_spend(&[(Item(IRON_ORE), 3), (Item(GEAR), 1)]));
    assert_eq!(inv.slots, before);
}

#[test]
fn try_spend_takes_from_last_stack_first() {
    let mut inv = Inventory::empty();
    inv.add(Item(IRON_ORE), 250);
    assert!(inv.try_spend(&[(Item(IRON_ORE), 60)]));
    // The 50-stack in slot 1 is emptied first, then 10 from slot 0.
    assert_eq!(inv.slots[0], InvSlot { item: Some(Item(IRON_ORE)), count: 190 });
    assert_eq!(inv.slots[1], InvSlot { item: None, count: 0 });
    assert_eq!(inv.count(Item(IRON_ORE)), 190);
}

#[test]
fn spend_then_refund_restores_counts() {
    let mut inv = Inventory::starter();
    let cost = building_recipe(BuildingKind::Solar);
    let solar = inv.count(Item(SOLAR_CELL));
    let frame = inv.count(Item(FRAME));
    assert!(inv.try_spend(&cost));
    assert_eq!(inv.count(Item(SOLAR_CELL)), solar - 1);
    assert_eq!(inv.count(Item(FRAME)), frame - 1);
    inv.refund(&cost);
    assert_eq!(inv.count(Item(SOLAR_CELL)), solar);
    assert_eq!(inv.count(Item(FRAME)), frame);
}

#[test]
fn spend_then_refund_in_a_full_inventory() {
    // Every slot occupied; removing whole stacks and refunding must fit again.
    let mut inv = Inventory::empty();
    for i in 0..INV_SLOTS as u16 {
        inv.add(Item(100 + i), if i == 3 { 7 } else { MAX_STACK });
    }
    let costs = [(Item(103), 7), (Item(104), 200)];
    assert!(inv.try_spend(&costs));
    assert_eq!(inv.count(Item(103)), 0);
    assert_eq!(inv.count(Item(104)), 0);
    inv.refund(&costs);
    assert_eq!(inv.count(Item(103)), 7);
    assert_eq!(inv.count(Item(104)), 200);
}

#[test]
fn missing_hint_lists_shortfalls() {
    let inv = Inventory::from_totals(0, 3);
    let hint = inv.missing_hint(None, &[(Item(IRON_INGOT), 8), (Item(GEAR), 4)]);
    assert_eq!(hint, "Need 5 Ferrite Plate (have 3), 4 Structural Frame (have 0)");
    let ok = inv.missing_hint(None, &[(Item(IRON_INGOT), 2)]);
    assert_eq!(ok, "Can't afford");
}

#[test]
fn building_costs() {
    assert_eq!(building_recipe(BuildingKind::PowerPole), vec![(Item(POLE_KIT), 1)]);
    assert_eq!(building_recipe(BuildingKind::OreNode), vec![(Item(IRON_INGOT), 8), (Item(GEAR), 4)]);
    assert_eq!(building_recipe(BuildingKind::Machine), building_recipe(BuildingKind::Assembler));
    assert!(building_recipe(BuildingKind::Conveyor).is_empty());
    assert!(building_recipe(BuildingKind::SpawnNest).is_empty());
    assert_eq!(belt_recipe(), vec![(Item(BELT_LINK), 1)]);
}

#[test]
fn legacy_item_labels() {
    assert_eq!(item_label(None, Item(IRON_ORE)), "Ferrite Gas");
    assert_eq!(item_label(None, Item(SCIENCE_GREEN)), "Chemical Data");
    assert_eq!(item_label(None, Item(500)), "Item");
}
