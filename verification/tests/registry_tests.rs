use factory_planner::content::registry::{machine_kind_for_id, ContentRegistry, ContentStats};
use factory_planner::content::search::best_search_match;
use factory_planner::content::tech::TechState;
use factory_planner::content::types::{ItemKind, RuntimeItem, RuntimeRecipe, RuntimeTech};
use factory_planner::recipes::item_label;
use factory_planner::sim::{BuildingKind, Item};

fn item(i: u16, id: &str, name: &str, kind: ItemKind) -> RuntimeItem {
    RuntimeItem {
        id: id.to_string(),
        name: name.to_string(),
        kind,
        era: 1,
        category: String::new(),
        description: String::new(),
        state: None,
        stack_size: 100,
        purity_supported: false,
        grade_supported: false,
        family: String::new(),
        index: i,
    }
}

fn recipe(index: u16, id: &str, cat: &str, machine: &str, inputs: &[u16], outputs: &[u16], waste: &[u16], extracts: bool) -> RuntimeRecipe {
    RuntimeRecipe {
        id: id.to_string(),
        name: id.to_string(),
        category: cat.to_string(),
        description: String::new(),
        machine: machine.to_string(),
        machine_idx: None,
        inputs: inputs.to_vec(),
        outputs: outputs.to_vec(),
        waste: waste.to_vec(),
        technology_unlock: String::new(),
        extracts: if extracts { Some("ore".to_string()) } else { None },
        index,
    }
}

fn tech(i: u16, id: &str, prereqs: &[&str]) -> RuntimeTech {
    RuntimeTech {
        id: id.to_string(),
        name: id.to_string(),
        tier: 1,
        era: 1,
        description: String::new(),
        purpose: String::new(),
        science_cost: std::collections::HashMap::new(),
        prerequisites: prereqs.iter().map(|s| s.to_string()).collect(),
        unlocks: Vec::new(),
        index: i,
    }
}

/// ore(0) → plate(1) → gear(2); slag(3) is waste of smelting; coolant(4) is a fluid.
fn sample() -> ContentRegistry {
    ContentRegistry {
        items: vec![
            item(0, "era1_raw_ore", "Ore", ItemKind::Item),
            item(1, "era1_material_plate", "Plate", ItemKind::Item),
            item(2, "era1_component_gear", "Gear", ItemKind::Item),
            item(3, "era1_waste_slag", "Slag", ItemKind::Waste),
            item(4, "era1_fluid_coolant", "Coolant", ItemKind::Fluid),
            item(5, "era1_science_engineering_data", "Engineering Data", ItemKind::Item),
        ],
        recipes: vec![
            recipe(1, "mine_ore", "extraction", "drill", &[], &[0], &[], true),
            recipe(2, "smelt_plate", "smelting", "furnace", &[0], &[1], &[3], false),
            recipe(3, "make_gear", "assembly", "assembler", &[1, 1], &[2], &[], false),
            recipe(4, "recovery_plate", "smelting", "furnace", &[3], &[1], &[], false),
            recipe(5, "bridge_gear", "assembly", "assembler", &[1], &[2], &[], false),
            recipe(6, "idle", "assembly", "assembler", &[2], &[], &[], false),
        ],
        machine_ids: vec!["drill".to_string(), "furnace".to_string(), "assembler".to_string()],
        techs: vec![tech(0, "t_base", &[]), tech(1, "t_mid", &["t_base"]), tech(2, "t_top", &["t_mid", "t_side"])],
        stats: ContentStats { items: 5, fluids: 1, recipes: 6, machines: 3, technologies: 3 },
        validation_errors: Vec::new(),
    }
}

#[test]
fn lookups_by_index_and_id() {
    let reg = sample();
    assert_eq!(reg.item_count(), 6);
    assert_eq!(reg.item(2).unwrap().name, "Gear");
    assert!(reg.item(9).is_none());
    assert_eq!(reg.item_index("era1_waste_slag"), Some(3));
    assert_eq!(reg.item_index("nope"), None);
    assert_eq!(reg.item_by_str("era1_material_plate").unwrap().index, 1);
    assert_eq!(reg.label(Item(1)), "Plate");
    assert_eq!(reg.label(Item(77)), "?");
    assert!(reg.is_fluid(Item(4)));
    assert!(!reg.is_fluid(Item(3)));
    assert!(!reg.is_fluid(Item(99)));
    assert!(reg.recipe(0).is_none());
    assert_eq!(reg.recipe(2).unwrap().id, "smelt_plate");
    assert!(reg.recipe(7).is_none());
    assert_eq!(reg.recipe_by_str("make_gear").unwrap().index, 3);
    assert_eq!(reg.machine_index("assembler"), Some(2));
    assert_eq!(reg.tech(1).unwrap().id, "t_mid");
    assert!(reg.tech_by_str("t_none").is_none());
    assert_eq!(reg.science_item_for_key("engineering_data"), Some(5));
    assert_eq!(reg.science_item_for_key("era1_raw_ore"), Some(0));
    assert_eq!(reg.science_item_for_key("chemical_data"), None);
}

#[test]
fn item_label_prefers_registry_names() {
    let reg = sample();
    assert_eq!(item_label(Some(&reg), Item(2)), "Gear");
    assert_eq!(item_label(Some(&reg), Item(40)), "?");
    assert_eq!(item_label(None, Item(2)), "Conductive Gas");
}

#[test]
fn recipes_by_machine_and_category() {
    let reg = sample();
    assert_eq!(reg.recipes_for_machine("furnace"), vec![2, 4]);
    assert!(reg.recipes_for_machine("none").is_empty());
    let cats = vec!["assembly".to_string(), "smelting".to_string(), "assembly".to_string()];
    assert_eq!(reg.recipes_for_categories(&cats), vec![3, 5, 6, 2, 4]);
}

#[test]
fn viewer_recipes() {
    let reg = sample();
    assert!(reg.is_viewer_recipe(&reg.recipes[0]));
    assert!(reg.is_viewer_recipe(&reg.recipes[1]));
    assert!(!reg.is_viewer_recipe(&reg.recipes[5]));
}

#[test]
fn best_recipe_prefers_real_crafts() {
    let reg = sample();
    // make_gear scores 100 - 2 = 98; bridge_gear 100 - 20 - 1 = 79.
    assert_eq!(reg.best_recipe_for_output(2).unwrap().id, "make_gear");
    // smelt_plate 99 beats recovery_plate 100 - 50 - 1 = 49.
    assert_eq!(reg.best_recipe_for_output(1).unwrap().id, "smelt_plate");
    // Slag only comes out as waste.
    assert_eq!(reg.best_recipe_for_output(3).unwrap().id, "smelt_plate");
    assert_eq!(reg.best_recipe_for_output(0).unwrap().id, "mine_ore");
    assert!(reg.best_recipe_for_output(4).is_none());
}

#[test]
fn dependency_edges() {
    let reg = sample();
    assert_eq!(
        reg.recipe_dependency_edges(),
        vec![(1, 2), (2, 3), (4, 3), (2, 4), (2, 5), (4, 5)]
    );
}

#[test]
fn craft_depths() {
    let reg = sample();
    assert_eq!(reg.recipe_depths(), vec![(1, 0), (2, 1), (3, 2), (4, 2), (5, 2)]);
    let empty = ContentRegistry {
        items: Vec::new(),
        recipes: Vec::new(),
        machine_ids: Vec::new(),
        techs: Vec::new(),
        stats: ContentStats { items: 0, fluids: 0, recipes: 0, machines: 0, technologies: 0 },
        validation_errors: Vec::new(),
    };
    assert!(empty.recipe_depths().is_empty());
}

#[test]
fn production_tree_rows() {
    let reg = sample();
    let rows = reg.production_tree(2, 100);
    let flat: Vec<(u16, Option<u16>, u32, bool, bool)> =
        rows.iter().map(|r| (r.item, r.recipe, r.depth, r.is_last, r.cyclic)).collect();
    assert_eq!(
        flat,
        vec![
            (2, Some(3), 0, true, false),
            (1, Some(2), 1, false, false),
            (0, Some(1), 2, true, false),
            (1, Some(2), 1, true, false),
            (0, Some(1), 2, true, false),
        ]
    );
    assert_eq!(rows[2].ancestor_open, vec![false, true]);
    assert_eq!(reg.production_tree(2, 2).len(), 2);
}

#[test]
fn production_tree_marks_cycles() {
    let mut reg = sample();
    // plate from slag; slag comes only as the waste of plate smelting, whose
    // input is slag again: the walk meets slag on its own path.
    reg.recipes[1].inputs = vec![3];
    let rows = reg.production_tree(1, 100);
    let flat: Vec<(u16, bool)> = rows.iter().map(|r| (r.item, r.cyclic)).collect();
    assert_eq!(flat, vec![(1, false), (3, false), (3, true)]);
}

#[test]
fn tech_state_gates() {
    let reg = sample();
    let mut t = TechState::default();
    assert!(t.is_researched("era1_tech_basic_recovery"));
    assert!(!t.is_researched("t_base"));
    assert!(t.recipe_unlocked(""));
    assert!(t.recipe_unlocked("era1_tech_basic_recovery"));
    assert!(!t.recipe_unlocked("t_mid"));
    assert!(t.machine_unlocked("era1_tech_waste_recovery"));
    assert!(t.can_start(&reg, "t_base"));
    assert!(!t.can_start(&reg, "t_mid"));
    assert!(!t.can_start(&reg, "t_unknown"));
    assert!(!t.start_research(&reg, "t_mid"));
    assert!(t.active.is_none());
    assert!(t.start_research(&reg, "t_base"));
    assert_eq!(t.active.as_deref(), Some("t_base"));
    assert_eq!(t.finish_active(), Some("t_base".to_string()));
    assert!(t.active.is_none());
    assert!(t.is_researched("t_base"));
    assert!(t.can_start(&reg, "t_mid"));
    assert!(!t.can_start(&reg, "t_base"));
    assert_eq!(t.finish_active(), None);
}

#[test]
fn tech_unlock_all() {
    let reg = sample();
    let mut t = TechState::new();
    t.debug_unlock_all(&reg);
    assert!(t.is_researched("t_top"));
    assert!(t.era2_unlocked);
}

#[test]
fn era_transition_unlocks_era_two() {
    let mut reg = sample();
    reg.techs.push(tech(3, "era1_tech_era_transition", &[]));
    let mut t = TechState::new();
    assert!(t.start_research(&reg, "era1_tech_era_transition"));
    assert!(!t.era2_unlocked);
    t.finish_active();
    assert!(t.era2_unlocked);
}

#[test]
fn tech_debug_unlock_pulls_prerequisites() {
    let reg = sample();
    let mut t = TechState::new();
    t.debug_unlock(&reg, "t_top");
    assert!(t.is_researched("t_top"));
    assert!(t.is_researched("t_mid"));
    assert!(t.is_researched("t_base"));
    // named as a prerequisite though the registry has no such tech
    assert!(t.is_researched("t_side"));
    assert!(!t.era2_unlocked);
    let mut u = TechState::new();
    u.debug_unlock(&reg, "t_mid");
    assert!(u.is_researched("t_base"));
    assert!(!u.is_researched("t_top"));
    assert!(!u.is_researched("t_side"));
}

#[test]
fn tech_debug_unlock_era_transition_and_loops() {
    let mut reg = sample();
    reg.techs.push(tech(3, "era1_tech_era_transition", &["t_loop_a"]));
    reg.techs.push(tech(4, "t_loop_a", &["t_loop_b"]));
    reg.techs.push(tech(5, "t_loop_b", &["t_loop_a"]));
    let mut t = TechState::new();
    t.debug_unlock(&reg, "era1_tech_era_transition");
    assert!(t.era2_unlocked);
    assert!(t.is_researched("t_loop_a"));
    assert!(t.is_researched("t_loop_b"));
    assert!(!t.is_researched("t_base"));
}

#[test]
fn era_machines_place_as_building_kinds() {
    let mut reg = sample();
    reg.machine_ids.push("era1_machine_wall".to_string());
    reg.machine_ids.push("era1_machine_fluid_tank".to_string());
    assert_eq!(reg.building_kind_for_era_machine(0), BuildingKind::Machine);
    assert_eq!(reg.building_kind_for_era_machine(3), BuildingKind::Wall);
    assert_eq!(reg.building_kind_for_era_machine(4), BuildingKind::FluidTank);
    assert_eq!(reg.building_kind_for_era_machine(99), BuildingKind::Machine);
    assert_eq!(machine_kind_for_id("era1_machine_charge_cannon"), BuildingKind::Turret);
    assert_eq!(machine_kind_for_id("era1_machine_laboratory_module"), BuildingKind::Lab);
    assert_eq!(machine_kind_for_id("era1_machine_assembler_mk1"), BuildingKind::Assembler);
    assert_eq!(machine_kind_for_id("era1_machine_planetary_nexus"), BuildingKind::Nexus);
}

#[test]
fn short_item_labels() {
    let mut reg = sample();
    assert_eq!(reg.short(Item(1)), "Plate");
    // long name: the id's last part stands in
    assert_eq!(reg.short(Item(5)), "data");
    reg.items.push(item(6, "era1_material_supercalifragilistic", "Supercalifragilistic Alloy", ItemKind::Item));
    assert_eq!(reg.short(Item(6)), "Supercali…");
    reg.items.push(item(7, "trailing_", "Exactly Ten", ItemKind::Item));
    assert_eq!(reg.short(Item(7)), "Exactly T…");
    reg.items.push(item(8, "x", "Ten chars!", ItemKind::Item));
    assert_eq!(reg.short(Item(8)), "Ten chars!");
    assert_eq!(reg.short(Item(99)), "?");
}

#[test]
fn recipe_outputs_then_waste() {
    let reg = sample();
    assert_eq!(reg.recipes[1].all_outputs(), vec![1, 3]);
    assert_eq!(reg.recipes[0].all_outputs(), vec![0]);
    assert_eq!(reg.recipes[5].all_outputs(), Vec::<u16>::new());
}

#[test]
fn production_tree_shape() {
    let mut reg = sample();
    for max in 0..8usize {
        let rows = reg.production_tree(2, max);
        assert!(rows.len() <= max);
        if max > 0 {
            assert_eq!((rows[0].item, rows[0].depth, rows[0].cyclic), (2, 0, false));
        }
        for w in rows.windows(2) {
            assert!(w[1].depth <= w[0].depth || (w[0].recipe.is_some() && !w[0].cyclic && w[1].depth == w[0].depth + 1));
        }
    }
    reg.recipes[1].inputs = vec![3];
    let rows = reg.production_tree(1, 100);
    for r in &rows {
        assert!(r.depth <= 24);
        if r.cyclic {
            assert!(r.recipe.is_none());
        }
    }
}

#[test]
fn craft_depths_list_every_viewer_once() {
    let reg = sample();
    let depths = reg.recipe_depths();
    let viewers: Vec<u16> = reg.recipes.iter().filter(|r| reg.is_viewer_recipe(r)).map(|r| r.index).collect();
    assert_eq!(depths.iter().map(|p| p.0).collect::<Vec<u16>>(), viewers);
    assert!(depths.iter().all(|p| p.1 <= 40));
}

#[test]
fn recipe_viewer_search() {
    let reg = sample();
    assert_eq!(best_search_match(&reg, "  GEAR "), Some(2));
    // ore's id ends with "e": 50 - 3 beats plate's 50 - 5
    assert_eq!(best_search_match(&reg, "e"), Some(0));
    // no item name holds it: the exact recipe id roots at its first output
    assert_eq!(best_search_match(&reg, "smelt_plate"), Some(1));
    // a recipe with no outputs keeps the current root
    assert_eq!(best_search_match(&reg, "idle"), None);
    // not craftable, so no hit; the exact item id still roots there
    assert_eq!(best_search_match(&reg, "era1_fluid_coolant"), Some(4));
    assert_eq!(best_search_match(&reg, "   "), None);
    assert_eq!(best_search_match(&reg, "nothing"), None);
}

#[test]
fn researched_techs_recorded_once() {
    let reg = sample();
    let mut t = TechState::new();
    t.debug_unlock_all(&reg);
    t.debug_unlock_all(&reg);
    t.debug_unlock(&reg, "t_top");
    let mut ids = t.researched.clone();
    ids.sort();
    ids.dedup();
    assert_eq!(ids.len(), t.researched.len());
}
