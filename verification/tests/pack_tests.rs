use factory_planner::content::pack::{ContentPack, RecipeEntry};
use factory_planner::content::registry::ContentRegistry;
use factory_planner::content::types::{ItemDef, ItemKind, Manifest, ManifestCounts, TechDef};
use factory_planner::sim::Item;
use std::collections::HashMap;

fn item_def(id: &str, name: &str, kind: &str) -> ItemDef {
    ItemDef {
        id: id.to_string(),
        name: name.to_string(),
        era: 1,
        family: "fam".to_string(),
        category: "cat".to_string(),
        stack_size: 50,
        purity_supported: false,
        grade_supported: true,
        description: "desc".to_string(),
        kind: kind.to_string(),
        state: Some("solid".to_string()),
    }
}

fn strings(v: &[&str]) -> Vec<String> {
    v.iter().map(|s| s.to_string()).collect()
}

fn recipe(id: &str, machine: &str, inputs: &[&str], outputs: &[&str], waste: &[&str], unlock: &str) -> RecipeEntry {
    RecipeEntry {
        id: id.to_string(),
        name: id.to_string(),
        category: "smelting".to_string(),
        description: String::new(),
        machine: machine.to_string(),
        inputs: strings(inputs),
        outputs: strings(outputs),
        waste: strings(waste),
        technology_unlock: unlock.to_string(),
        extracts: None,
    }
}

fn tech(id: &str, prereqs: &[&str]) -> TechDef {
    let mut cost = HashMap::new();
    cost.insert("engineering_data".to_string(), 5u32);
    TechDef {
        id: id.to_string(),
        name: id.to_string(),
        tier: 1,
        era: 1,
        description: String::new(),
        purpose: String::new(),
        science_cost: cost,
        prerequisites: strings(prereqs),
        unlocks: Vec::new(),
        research_time: "30s".to_string(),
    }
}

fn sample_pack() -> ContentPack {
    ContentPack {
        items: vec![
            // refreshes legacy slot 1 (its name and fields; kind stays)
            item_def("era1_material_ferrite_plate", "Iron Plate", "fluid"),
            item_def("era1_component_gear_wheel", "Gear Wheel", "item"),
            // same id again: refreshes the entry just added, name kept when empty
            item_def("era1_component_gear_wheel", "", "item"),
        ],
        fluids: vec![item_def("era1_fluid_coolant", "Coolant", "fluid")],
        recipes: vec![
            recipe("smelt", "furnace", &["era1_raw_ferrite_ore"], &["era1_material_ferrite_plate"], &["era1_waste_slag_pile"], ""),
            recipe("gear", "assembler", &["era1_material_ferrite_plate"], &["era1_component_gear_wheel"], &[], "t_gears"),
            recipe("smelt", "assembler", &[], &[], &[], "t_gears"),
            recipe("cool", "chiller", &["era1_fluid_coolant"], &["era1_gas_steam_vapor"], &[], "era1_tech_waste_management"),
            recipe("odd", "", &["plainname"], &["era1_fluid_coolant"], &[], "t_gears"),
        ],
        machines: strings(&["furnace", "assembler", "furnace"]),
        techs: vec![tech("t_gears", &["t_base"]), tech("t_base", &[]), tech("t_gears", &[])],
        manifest: None,
    }
}

#[test]
fn pack_reserves_legacy_slots_first() {
    let (reg, _) = ContentRegistry::from_pack(&sample_pack());
    assert_eq!(reg.items[0].id, "era1_raw_ferrite_ore");
    assert_eq!(reg.items[0].name, "Ferrite Gas");
    assert_eq!(reg.items[0].stack_size, 200);
    assert_eq!(reg.items[0].category, "legacy");
    assert!(reg.items[0].purity_supported);
    assert!(!reg.items[0].grade_supported);
    assert_eq!(reg.items[5].kind, ItemKind::Fluid);
    assert_eq!(reg.items[7].kind, ItemKind::Waste);
    assert!(reg.items[7].purity_supported);
    assert_eq!(reg.items[19].id, "era1_military_ammo_casing");
    assert!(reg.items[19].grade_supported);
    assert!(!reg.items[19].purity_supported);
    assert_eq!(reg.items[23].name, "Chemical Data");
    for (i, it) in reg.items.iter().enumerate() {
        assert_eq!(it.index as usize, i);
    }
}

#[test]
fn pack_item_refreshes_legacy_slot() {
    let (reg, _) = ContentRegistry::from_pack(&sample_pack());
    let plate = &reg.items[1];
    assert_eq!(plate.name, "Iron Plate");
    assert_eq!(plate.kind, ItemKind::Item);
    assert_eq!(plate.stack_size, 50);
    assert_eq!(plate.category, "cat");
    assert_eq!(plate.family, "fam");
    assert_eq!(plate.state.as_deref(), Some("solid"));
    assert!(!plate.purity_supported);
    assert!(plate.grade_supported);
}

#[test]
fn pack_items_then_fluids_then_stubs() {
    let (reg, _) = ContentRegistry::from_pack(&sample_pack());
    assert_eq!(reg.items[24].id, "era1_component_gear_wheel");
    assert_eq!(reg.items[24].name, "Gear Wheel");
    assert_eq!(reg.items[25].id, "era1_fluid_coolant");
    assert_eq!(reg.items[25].kind, ItemKind::Fluid);
    // stubs, in the order the recipes name them
    assert_eq!(reg.items[26].id, "era1_waste_slag_pile");
    assert_eq!(reg.items[26].name, "pile");
    assert_eq!(reg.items[26].kind, ItemKind::Waste);
    assert_eq!(reg.items[26].category, "auto");
    assert_eq!(reg.items[26].stack_size, 100);
    assert!(reg.items[26].purity_supported);
    assert_eq!(reg.items[27].id, "era1_gas_steam_vapor");
    assert_eq!(reg.items[27].kind, ItemKind::Gas);
    assert_eq!(reg.items[27].name, "vapor");
    assert_eq!(reg.items[28].id, "plainname");
    assert_eq!(reg.items[28].name, "plainname");
    assert_eq!(reg.items[28].kind, ItemKind::Item);
    assert_eq!(reg.items.len(), 29);
}

#[test]
fn pack_recipes_resolve_and_skip_repeats() {
    let (reg, order) = ContentRegistry::from_pack(&sample_pack());
    assert_eq!(reg.recipes.len(), 4);
    assert_eq!(order.recipes, vec![0, 1, 3, 4]);
    let smelt = &reg.recipes[0];
    assert_eq!(smelt.index, 1);
    assert_eq!(smelt.inputs, vec![0]);
    assert_eq!(smelt.outputs, vec![1]);
    assert_eq!(smelt.waste, vec![26]);
    assert_eq!(smelt.machine_idx, Some(0));
    assert_eq!(smelt.technology_unlock, "era1_tech_basic_recovery");
    let gear = &reg.recipes[1];
    assert_eq!(gear.index, 2);
    assert_eq!(gear.machine_idx, Some(1));
    assert_eq!(gear.outputs, vec![24]);
    let cool = &reg.recipes[2];
    assert_eq!(cool.index, 3);
    assert_eq!(cool.machine_idx, None);
    assert_eq!(cool.technology_unlock, "era1_tech_waste_recovery");
    assert_eq!(reg.recipes[3].machine_idx, None);
}

#[test]
fn pack_machines_and_techs_once_each() {
    let (reg, order) = ContentRegistry::from_pack(&sample_pack());
    assert_eq!(reg.machine_ids, strings(&["furnace", "assembler"]));
    assert_eq!(order.machines, vec![0, 1]);
    assert_eq!(reg.techs.len(), 2);
    assert_eq!(order.techs, vec![0, 1]);
    assert_eq!(reg.techs[0].id, "t_gears");
    assert_eq!(reg.techs[0].prerequisites, strings(&["t_base"]));
    assert_eq!(reg.techs[0].science_cost.get("engineering_data"), Some(&5));
    assert_eq!(reg.techs[1].index, 1);
}

#[test]
fn pack_validation_and_stats() {
    let (reg, _) = ContentRegistry::from_pack(&sample_pack());
    assert_eq!(
        reg.validation_errors,
        strings(&[
            "recipe smelt tech unlock era1_tech_basic_recovery not in pack",
            "recipe cool missing machine chiller",
            "recipe cool tech unlock era1_tech_waste_recovery not in pack",
        ])
    );
    // fluids: legacy crude oil, coolant, steam vapour (gas)
    assert_eq!(reg.stats.fluids, 3);
    assert_eq!(reg.stats.items, 26);
    assert_eq!(reg.stats.recipes, 4);
    assert_eq!(reg.stats.machines, 2);
    assert_eq!(reg.stats.technologies, 2);
}

#[test]
fn pack_manifest_shortfall_reported() {
    let mut pack = sample_pack();
    pack.techs.push(tech("t_lonely", &["t_missing"]));
    pack.manifest = Some(Manifest {
        era: 1,
        name: "Era One".to_string(),
        counts: ManifestCounts { items: 10, fluids: 5, recipes: 4, machines: 3, technologies: 1 },
    });
    let (reg, _) = ContentRegistry::from_pack(&pack);
    let n = reg.validation_errors.len();
    assert_eq!(reg.validation_errors[n - 3], "tech t_lonely missing prereq t_missing");
    assert_eq!(reg.validation_errors[n - 2], "manifest fluids: pack has 3, expected at least 5 (Era One)");
    assert_eq!(reg.validation_errors[n - 1], "manifest machines: pack has 2, expected at least 3 (Era One)");
}

#[test]
fn pack_machine_fluid_use() {
    let (reg, _) = ContentRegistry::from_pack(&sample_pack());
    // furnace: plate smelting moves no fluid
    assert!(!reg.machine_uses_fluids(0, false));
    assert!(reg.machine_uses_fluids(0, true));
    // assembler: gears only
    assert!(!reg.machine_uses_fluids(1, false));
    assert!(reg.is_fluid(Item(25)));
}

#[test]
fn pack_empty_is_legacy_only() {
    let pack = ContentPack {
        items: Vec::new(),
        fluids: Vec::new(),
        recipes: Vec::new(),
        machines: Vec::new(),
        techs: Vec::new(),
        manifest: None,
    };
    let (reg, order) = ContentRegistry::from_pack(&pack);
    assert_eq!(reg.items.len(), 24);
    assert_eq!(reg.stats.items, 23);
    assert_eq!(reg.stats.fluids, 1);
    assert!(reg.validation_errors.is_empty());
    assert!(order.recipes.is_empty());
    assert_eq!(reg.item_index("era1_science_chemical_data"), Some(23));
}

#[test]
fn single_recipe_pack_looks_up_its_own_entry() {
    let pack = ContentPack {
        items: Vec::new(),
        fluids: Vec::new(),
        recipes: vec![RecipeEntry {
            id: "r1".to_string(),
            name: "R1".to_string(),
            category: String::new(),
            description: String::new(),
            machine: String::new(),
            inputs: Vec::new(),
            outputs: strings(&["era1_raw_ferrite_ore"]),
            waste: Vec::new(),
            technology_unlock: String::new(),
            extracts: None,
        }],
        machines: Vec::new(),
        techs: Vec::new(),
        manifest: None,
    };
    let (reg, _) = ContentRegistry::from_pack(&pack);
    assert_eq!(reg.recipes.len(), 1);
    assert_eq!(reg.recipes[0].index, 1);
    assert!(reg.recipe(0).is_none());
    assert_eq!(reg.recipe(1).unwrap().id, "r1");
    assert_eq!(reg.recipe_by_str("r1").map(|r| r.index), Some(1));
    assert_eq!(reg.recipes[0].outputs[0], 0);
    assert_eq!(reg.items.len(), 24);
    assert_eq!(reg.stats.items, 23);
    assert_eq!(reg.stats.fluids, 1);
    assert_eq!(reg.stats.recipes, 1);
}
