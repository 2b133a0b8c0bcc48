use factory_planner::belts::{
    emit_lanes, entry_lane, facing_delta, facing_left, facing_opposite, facing_right, turn_lane, BeltGrid,
    BeltShape, LaneEntry, SplitterLanes,
};
use factory_planner::sim::{Facing, Item, COAL, IRON_INGOT, IRON_ORE};

#[test]
fn facings() {
    assert_eq!(facing_delta(Facing::E), (1, 0));
    assert_eq!(facing_delta(Facing::N), (0, -1));
    assert_eq!(facing_opposite(Facing::E), Facing::W);
    assert_eq!(facing_left(Facing::E), Facing::N);
    assert_eq!(facing_right(Facing::E), Facing::S);
    for f in [Facing::N, Facing::E, Facing::S, Facing::W] {
        assert_eq!(facing_left(facing_right(f)), f);
        assert_eq!(facing_opposite(facing_opposite(f)), f);
    }
    assert_eq!(turn_lane(Facing::E, Facing::S, 0), 0);
    assert_eq!(turn_lane(Facing::E, Facing::S, 5), 1);
}

#[test]
fn paint_and_remove() {
    let mut g: BeltGrid<()> = BeltGrid::new();
    assert!(g.paint_belt(1, 2, Facing::E, false, ()));
    assert_eq!(g.belt_dir(1, 2), Some(Facing::E));
    assert!(g.paint_belt(1, 2, Facing::S, false, ()));
    assert_eq!(g.belt_dir(1, 2), Some(Facing::S));
    assert_eq!(g.len(), 1);
    assert!(!g.paint_belt(3, 3, Facing::N, true, ()));
    assert_eq!(g.belt_dir(3, 3), None);
    assert!(g.paint_belt(2, 2, Facing::W, false, ()));
    assert!(g.remove_belt_at(1, 2));
    assert!(!g.remove_belt_at(1, 2));
    assert_eq!(g.belt_dir(1, 2), None);
    assert_eq!(g.belt_dir(2, 2), Some(Facing::W));
    assert_eq!(g.len(), 1);
}

#[test]
fn shapes() {
    let mut g = BeltGrid::new();
    // A lone belt is straight.
    g.paint_belt(0, 0, Facing::E, false, ());
    assert_eq!(g.belt_shape(0, 0, Facing::E), BeltShape::Straight);
    // Fed from the left (north side, pointing south into it): left corner.
    g.paint_belt(0, -1, Facing::S, false, ());
    assert_eq!(g.belt_shape(0, 0, Facing::E), BeltShape::CornerLeft);
    // A belt behind running the same way makes it straight again.
    g.paint_belt(-1, 0, Facing::E, false, ());
    assert_eq!(g.belt_shape(0, 0, Facing::E), BeltShape::Straight);
    // Fed from the right only.
    let mut h = BeltGrid::new();
    h.paint_belt(0, 1, Facing::N, false, ());
    assert_eq!(h.belt_shape(0, 0, Facing::E), BeltShape::CornerRight);
}

#[test]
fn lane_entry_rules() {
    assert_eq!(entry_lane(Facing::E, Facing::W, 0, false), LaneEntry::Blocked);
    assert_eq!(entry_lane(Facing::E, Facing::E, 1, true), LaneEntry::Enter(1));
    assert_eq!(entry_lane(Facing::E, Facing::S, 0, false), LaneEntry::Enter(0));
    // Moving east into a south belt from its left side (west): near lane is
    // the belt's right... west is the left of a south-facing belt? No: left of S is E.
    assert_eq!(entry_lane(Facing::E, Facing::S, 0, true), LaneEntry::Sideload(1));
    assert_eq!(entry_lane(Facing::W, Facing::S, 1, true), LaneEntry::Sideload(0));
}

#[test]
fn transfer_plans() {
    let mut g = BeltGrid::new();
    g.paint_belt(0, 0, Facing::E, false, ());
    assert_eq!(g.plan_transfer(0, 0, Facing::E, 0), LaneEntry::Blocked);
    g.paint_belt(1, 0, Facing::E, false, ());
    assert_eq!(g.plan_transfer(0, 0, Facing::E, 1), LaneEntry::Enter(1));
    // Side-load into a south belt with a belt feeding it from behind.
    let mut s = BeltGrid::new();
    s.paint_belt(0, 0, Facing::E, false, ());
    s.paint_belt(1, 0, Facing::S, false, ());
    assert_eq!(s.plan_transfer(0, 0, Facing::E, 0), LaneEntry::Enter(0));
    s.paint_belt(1, -1, Facing::S, false, ());
    assert_eq!(s.plan_transfer(0, 0, Facing::E, 0), LaneEntry::Sideload(1));
    // Head-on.
    let mut h = BeltGrid::new();
    h.paint_belt(0, 0, Facing::E, false, ());
    h.paint_belt(1, 0, Facing::W, false, ());
    assert_eq!(h.plan_transfer(0, 0, Facing::E, 0), LaneEntry::Blocked);
}

#[test]
fn machine_emission_lanes() {
    // Port on the belt's left side feeding sideways: near lane only.
    assert_eq!(emit_lanes(Facing::S, Facing::E, 1), (0, None));
    assert_eq!(emit_lanes(Facing::N, Facing::E, 0), (1, None));
    // Feeding from behind: side lane first, spill to the other.
    assert_eq!(emit_lanes(Facing::E, Facing::E, 1), (1, Some(0)));
    assert_eq!(emit_lanes(Facing::W, Facing::E, 0), (0, Some(1)));
}

#[test]
fn splitter_lanes() {
    let mut s = SplitterLanes::new();
    assert_eq!(s.take_lane(0), None);
    assert!(s.store(Item(IRON_ORE), Some(1)));
    assert!(s.store(Item(IRON_INGOT), None));
    assert!(!s.store(Item(COAL), Some(0)));
    assert_eq!(s.split_ore, [0, 1]);
    assert_eq!(s.split_ingot, [1, 0]);
    assert_eq!(s.totals(), (1, 1));
    assert_eq!(s.take_lane(7), Some(Item(IRON_ORE)));
    assert_eq!(s.take_lane(1), None);
    s.refund_lane(1, Item(IRON_ORE));
    assert_eq!(s.split_ore, [0, 1]);
    assert_eq!(s.take_lane(0), Some(Item(IRON_INGOT)));
    s.split_ore = [u16::MAX, 0];
    s.refund_lane(0, Item(IRON_ORE));
    assert_eq!(s.split_ore, [u16::MAX, 0]);
}

#[test]
fn splitter_alternates_sides() {
    let mut s = SplitterLanes::new();
    assert_eq!(s.preferred_side(0), 0);
    s.note_placed(0, 0);
    assert_eq!(s.preferred_side(0), 1);
    s.note_placed(0, 0);
    assert_eq!(s.preferred_side(0), 1);
    s.note_placed(0, 1);
    assert_eq!(s.preferred_side(0), 0);
    assert_eq!(s.preferred_side(1), 0);
    s.split_side = [5, 0];
    assert_eq!(s.preferred_side(0), 1);
}

#[test]
fn repaint_keeps_lane_contents() {
    let mut g: BeltGrid<Vec<u32>> = BeltGrid::new();
    assert!(g.paint_belt(0, 0, Facing::E, false, vec![7, 8]));
    assert_eq!(g.belt_lanes(0, 0), Some(&vec![7, 8]));
    // turning an existing belt keeps what its lanes carry
    assert!(g.paint_belt(0, 0, Facing::N, false, Vec::new()));
    assert_eq!(g.belt_dir(0, 0), Some(Facing::N));
    assert_eq!(g.belt_lanes(0, 0), Some(&vec![7, 8]));
    // a refused paint changes nothing
    assert!(!g.paint_belt(0, 0, Facing::S, true, vec![1]));
    assert_eq!(g.belt_dir(0, 0), Some(Facing::N));
    assert_eq!(g.belt_lanes(0, 0), Some(&vec![7, 8]));
    // a new belt starts with the given lanes; others are untouched
    assert!(g.paint_belt(1, 0, Facing::E, false, Vec::new()));
    assert_eq!(g.belt_lanes(1, 0), Some(&Vec::new()));
    assert_eq!(g.belt_lanes(0, 0), Some(&vec![7, 8]));
    assert!(g.remove_belt_at(0, 0));
    assert_eq!(g.belt_lanes(0, 0), None);
    assert_eq!(g.len(), 1);
}
