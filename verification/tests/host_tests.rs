use factory_planner::content::tech::TechState;
use factory_planner::host::{gate_place_request, settle_place_request, PlaceGate};
use factory_planner::inventory::{building_recipe, Inventory};
use factory_planner::sim::{BuildingKind, Item};

#[test]
fn locked_request_takes_nothing() {
    let tech = TechState::new();
    let mut inv = Inventory::starter();
    let costs = building_recipe(BuildingKind::Smelter);
    let before: Vec<u32> = costs.iter().map(|c| inv.count(c.0)).collect();
    let r = gate_place_request(&tech, None, "era1_tech_not_done", false, &mut inv, &costs);
    assert!(matches!(r, PlaceGate::Locked));
    let after: Vec<u32> = costs.iter().map(|c| inv.count(c.0)).collect();
    assert_eq!(before, after);
    // creative mode ignores the research gate and charges nothing
    let r = gate_place_request(&tech, None, "era1_tech_not_done", true, &mut inv, &costs);
    assert!(matches!(r, PlaceGate::Paid));
    let after: Vec<u32> = costs.iter().map(|c| inv.count(c.0)).collect();
    assert_eq!(before, after);
}

#[test]
fn paid_then_refused_request_is_refunded() {
    let tech = TechState::new();
    let mut inv = Inventory::starter();
    let costs = building_recipe(BuildingKind::Solar);
    let before: Vec<u32> = costs.iter().map(|c| inv.count(c.0)).collect();
    let r = gate_place_request(&tech, None, "", false, &mut inv, &costs);
    assert!(matches!(r, PlaceGate::Paid));
    let paid: Vec<u32> = costs.iter().map(|c| inv.count(c.0)).collect();
    let expect: Vec<u32> = before.iter().zip(costs.iter()).map(|(b, c)| b - c.1).collect();
    assert_eq!(paid, expect);
    settle_place_request(false, false, &mut inv, &costs);
    let back: Vec<u32> = costs.iter().map(|c| inv.count(c.0)).collect();
    assert_eq!(back, before);
    // a placed building keeps its cost spent
    let _ = gate_place_request(&tech, None, "", false, &mut inv, &costs);
    settle_place_request(true, false, &mut inv, &costs);
    let kept: Vec<u32> = costs.iter().map(|c| inv.count(c.0)).collect();
    assert_eq!(kept, expect);
}

#[test]
fn short_request_names_what_is_missing() {
    let tech = TechState::new();
    let mut inv = Inventory::empty();
    let costs = vec![(Item(0), 3u32)];
    let r = gate_place_request(&tech, None, "", false, &mut inv, &costs);
    match r {
        PlaceGate::Short(hint) => assert_eq!(hint, inv.missing_hint(None, &costs)),
        _ => panic!("expected a shortfall"),
    }
    assert_eq!(inv.count(Item(0)), 0);
}
