use factory_planner::deposits::{hash_u32, ResourceKind, VEIN_OUTLINE_VERTS};
use factory_planner::sim::{Item, COAL, COPPER_ORE, CRUDE_OIL, IRON_ORE, STONE};
use macroquad::color::Color;

const KINDS: [ResourceKind; 5] =
    [ResourceKind::Iron, ResourceKind::Copper, ResourceKind::Stone, ResourceKind::Coal, ResourceKind::Oil];

#[test]
fn vent_items_and_names() {
    assert_eq!(ResourceKind::Iron.item(), Item(IRON_ORE));
    assert_eq!(ResourceKind::Copper.item(), Item(COPPER_ORE));
    assert_eq!(ResourceKind::Stone.item(), Item(STONE));
    assert_eq!(ResourceKind::Coal.item(), Item(COAL));
    assert_eq!(ResourceKind::Oil.item(), Item(CRUDE_OIL));
    assert_eq!(ResourceKind::Iron.label(), "Ferrite Gas Vent");
    assert_eq!(ResourceKind::Oil.label(), "Hydrocarbon Gas Vent");
    assert_eq!(ResourceKind::Copper.short(), "Conductive Gas");
    assert_eq!(ResourceKind::Stone.short(), "Silicate Gas");
    assert_eq!(VEIN_OUTLINE_VERTS, 40);
}

#[test]
fn vent_kind_number_roundtrip() {
    for (i, k) in KINDS.iter().enumerate() {
        assert_eq!(k.as_u8() as usize, i);
        assert_eq!(ResourceKind::from_u8(i as u8), Some(*k));
    }
    assert_eq!(ResourceKind::from_u8(5), None);
    assert_eq!(ResourceKind::from_u8(255), None);
}

#[test]
fn vent_tints() {
    assert_eq!(ResourceKind::Iron.gas_rgba(), (100, 210, 235, 90));
    assert_eq!(ResourceKind::Coal.gas_rgba(), (160, 115, 220, 80));
    let c = ResourceKind::Copper.color();
    let want = Color::from_rgba(220, 150, 80, 255);
    assert_eq!((c.r, c.g, c.b, c.a), (want.r, want.g, want.b, want.a));
    let o = ResourceKind::Oil.color();
    assert!((o.g - 190.0 / 255.0).abs() < 1e-6);
    assert!((o.a - 1.0).abs() < 1e-6);
}

#[test]
fn vent_seed_hash_values() {
    assert_eq!(hash_u32(0, 0, 0), 0);
    assert_eq!(hash_u32(1, 2, 3), 2547869063);
    assert_eq!(hash_u32(7, 11, 2024), 2564360997);
    assert_eq!(hash_u32(u32::MAX, u32::MAX, u32::MAX), 995778845);
    assert_ne!(hash_u32(1, 2, 3), hash_u32(3, 2, 1));
}
