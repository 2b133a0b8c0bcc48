//! Built-in crafting table (Era 0–1) and legacy item labels.

use vstd::prelude::*;
use crate::content::registry::ContentRegistry;
use crate::sim::{
    Item, BELT_LINK, BRICK, CHARGE_CELL, CIRCUIT_SHARD, COAL, COKE, COPPER_INGOT, COPPER_ORE, FRAME, GEAR,
    IRON_INGOT, IRON_ORE, PIPE, POLE_KIT, RIVET, SCIENCE_GREEN, SCIENCE_RED, SHELL_CASING, SLAG, SOLAR_CELL,
    STONE, TOTEM_CORE, WIRE,
};

verus! {

#[derive(Clone, Copy, PartialEq, Eq, Debug, Structural)]
pub enum MachineKind {
    Smelt,
    Assemble,
}

#[derive(Clone, Copy, PartialEq, Eq, Debug, Structural)]
pub enum ScienceEra {
    Ember,
    Clearfoundry,
}

/// A built-in recipe. Craft time is in milliseconds and power in
/// thousandths of a sim energy unit.
#[derive(Clone, Debug)]
pub struct Recipe {
    pub id: u16,
    pub name: &'static str,
    pub machine: MachineKind,
    pub era: ScienceEra,
    pub inputs: Vec<(Item, u32)>,
    pub outputs: Vec<(Item, u32)>,
    pub craft_ms: u32,
    pub power_milli: u32,
}

/// A recipe as plain values: id, machine, era, inputs, outputs, craft ms, power.
pub type RecipeRow = (u16, MachineKind, ScienceEra, Seq<(Item, u32)>, Seq<(Item, u32)>, u32, u32);

pub open spec fn recipe_row(r: Recipe) -> RecipeRow {
    (r.id, r.machine, r.era, r.inputs@, r.outputs@, r.craft_ms, r.power_milli)
}

pub open spec fn io1(a: u16, n: u32) -> Seq<(Item, u32)> {
    seq![(Item(a), n)]
}

pub open spec fn io2(a: u16, n: u32, b: u16, m: u32) -> Seq<(Item, u32)> {
    seq![(Item(a), n), (Item(b), m)]
}

pub open spec fn io3(a: u16, n: u32, b: u16, m: u32, c: u16, l: u32) -> Seq<(Item, u32)> {
    seq![(Item(a), n), (Item(b), m), (Item(c), l)]
}

pub const RECIPE_COUNT: usize = 18;

/// The built-in table, row `k`.
pub open spec fn table_row(k: int) -> RecipeRow {
    let sm = MachineKind::Smelt;
    let assemble = MachineKind::Assemble;
    let em = ScienceEra::Ember;
    let cf = ScienceEra::Clearfoundry;
    if k == 0 {
        (1, sm, em, io1(IRON_ORE, 1), io2(IRON_INGOT, 1, SLAG, 1), 1000, 4000)
    } else if k == 1 {
        (2, sm, em, io1(COPPER_ORE, 1), io2(COPPER_INGOT, 1, SLAG, 1), 1000, 4000)
    } else if k == 2 {
        (3, sm, em, io1(STONE, 2), io1(BRICK, 1), 1200, 3000)
    } else if k == 3 {
        (4, sm, em, io1(COAL, 2), io1(COKE, 1), 1500, 3000)
    } else if k == 4 {
        (10, assemble, em, io1(IRON_INGOT, 2), io1(GEAR, 1), 800, 2500)
    } else if k == 5 {
        (11, assemble, em, io1(COPPER_INGOT, 1), io1(WIRE, 2), 500, 2000)
    } else if k == 6 {
        (12, assemble, em, io1(IRON_INGOT, 1), io1(RIVET, 2), 400, 2000)
    } else if k == 7 {
        (13, assemble, em, io1(IRON_INGOT, 1), io1(PIPE, 1), 600, 2000)
    } else if k == 8 {
        (14, assemble, em, io3(IRON_INGOT, 4, GEAR, 2, RIVET, 4), io1(FRAME, 1), 2000, 5000)
    } else if k == 9 {
        (15, assemble, cf, io3(COPPER_INGOT, 1, WIRE, 3, COKE, 1), io1(CIRCUIT_SHARD, 1), 1500, 4000)
    } else if k == 10 {
        (16, assemble, em, io2(IRON_INGOT, 1, GEAR, 1), io1(BELT_LINK, 2), 700, 2000)
    } else if k == 11 {
        (17, assemble, em, io2(IRON_INGOT, 2, WIRE, 2), io1(POLE_KIT, 1), 1000, 2500)
    } else if k == 12 {
        (18, assemble, em, io3(COPPER_INGOT, 3, WIRE, 4, BRICK, 2), io1(SOLAR_CELL, 1), 2500, 3000)
    } else if k == 13 {
        (19, assemble, em, io1(IRON_INGOT, 2), io1(SHELL_CASING, 1), 900, 2500)
    } else if k == 14 {
        (20, assemble, em, io3(COPPER_INGOT, 2, WIRE, 2, COKE, 1), io1(CHARGE_CELL, 1), 1800, 4000)
    } else if k == 15 {
        (
            21,
            assemble,
            em,
            io3(FRAME, 1, CIRCUIT_SHARD, 2, CHARGE_CELL, 1).push((Item(BRICK), 4)),
            io1(TOTEM_CORE, 1),
            4000,
            8000,
        )
    } else if k == 16 {
        (30, assemble, em, io3(IRON_INGOT, 2, COPPER_INGOT, 1, COKE, 1), io1(SCIENCE_RED, 1), 2000, 3000)
    } else {
        (
            31,
            assemble,
            cf,
            io3(SCIENCE_RED, 1, GEAR, 2, CIRCUIT_SHARD, 1).push((Item(PIPE), 1)),
            io1(SCIENCE_GREEN, 1),
            3000,
            5000,
        )
    }
}

fn row(
    id: u16,
    name: &'static str,
    machine: MachineKind,
    era: ScienceEra,
    inputs: Vec<(Item, u32)>,
    outputs: Vec<(Item, u32)>,
    craft_ms: u32,
    power_milli: u32,
) -> (r: Recipe)
    ensures
        recipe_row(r) == (id, machine, era, inputs@, outputs@, craft_ms, power_milli),
        r.name == name,
{
    Recipe { id, name, machine, era, inputs, outputs, craft_ms, power_milli }
}

/// Row `k` of the built-in table.
pub fn recipe_at(k: usize) -> (r: Recipe)
    requires
        k < RECIPE_COUNT,
    ensures
        recipe_row(r) == table_row(k as int),
{
    let sm = MachineKind::Smelt;
    let assemble = MachineKind::Assemble;
    let em = ScienceEra::Ember;
    let cf = ScienceEra::Clearfoundry;
    let r = if k == 0 {
        row(1, "Smelt Iron Plate", sm, em, vec![(Item(IRON_ORE), 1)], vec![(Item(IRON_INGOT), 1), (Item(SLAG), 1)], 1000, 4000)
    } else if k == 1 {
        row(2, "Smelt Copper Plate", sm, em, vec![(Item(COPPER_ORE), 1)], vec![(Item(COPPER_INGOT), 1), (Item(SLAG), 1)], 1000, 4000)
    } else if k == 2 {
        row(3, "Bake Brick", sm, em, vec![(Item(STONE), 2)], vec![(Item(BRICK), 1)], 1200, 3000)
    } else if k == 3 {
        row(4, "Coke Coal", sm, em, vec![(Item(COAL), 2)], vec![(Item(COKE), 1)], 1500, 3000)
    } else if k == 4 {
        row(10, "Iron Gear", assemble, em, vec![(Item(IRON_INGOT), 2)], vec![(Item(GEAR), 1)], 800, 2500)
    } else if k == 5 {
        row(11, "Copper Wire", assemble, em, vec![(Item(COPPER_INGOT), 1)], vec![(Item(WIRE), 2)], 500, 2000)
    } else if k == 6 {
        row(12, "Rivet", assemble, em, vec![(Item(IRON_INGOT), 1)], vec![(Item(RIVET), 2)], 400, 2000)
    } else if k == 7 {
        row(13, "Pipe Section", assemble, em, vec![(Item(IRON_INGOT), 1)], vec![(Item(PIPE), 1)], 600, 2000)
    } else if k == 8 {
        row(14, "Machine Frame", assemble, em, vec![(Item(IRON_INGOT), 4), (Item(GEAR), 2), (Item(RIVET), 4)], vec![(Item(FRAME), 1)], 2000, 5000)
    } else if k == 9 {
        row(15, "Circuit Shard", assemble, cf, vec![(Item(COPPER_INGOT), 1), (Item(WIRE), 3), (Item(COKE), 1)], vec![(Item(CIRCUIT_SHARD), 1)], 1500, 4000)
    } else if k == 10 {
        row(16, "Belt Link", assemble, em, vec![(Item(IRON_INGOT), 1), (Item(GEAR), 1)], vec![(Item(BELT_LINK), 2)], 700, 2000)
    } else if k == 11 {
        row(17, "Pole Kit", assemble, em, vec![(Item(IRON_INGOT), 2), (Item(WIRE), 2)], vec![(Item(POLE_KIT), 1)], 1000, 2500)
    } else if k == 12 {
        row(18, "Solar Cell", assemble, em, vec![(Item(COPPER_INGOT), 3), (Item(WIRE), 4), (Item(BRICK), 2)], vec![(Item(SOLAR_CELL), 1)], 2500, 3000)
    } else if k == 13 {
        row(19, "Shell Casing", assemble, em, vec![(Item(IRON_INGOT), 2)], vec![(Item(SHELL_CASING), 1)], 900, 2500)
    } else if k == 14 {
        row(20, "Charge Cell", assemble, em, vec![(Item(COPPER_INGOT), 2), (Item(WIRE), 2), (Item(COKE), 1)], vec![(Item(CHARGE_CELL), 1)], 1800, 4000)
    } else if k == 15 {
        row(21, "Totem Core", assemble, em, vec![(Item(FRAME), 1), (Item(CIRCUIT_SHARD), 2), (Item(CHARGE_CELL), 1), (Item(BRICK), 4)], vec![(Item(TOTEM_CORE), 1)], 4000, 8000)
    } else if k == 16 {
        row(30, "Ember Science", assemble, em, vec![(Item(IRON_INGOT), 2), (Item(COPPER_INGOT), 1), (Item(COKE), 1)], vec![(Item(SCIENCE_RED), 1)], 2000, 3000)
    } else {
        row(31, "Circuit Science", assemble, cf, vec![(Item(SCIENCE_RED), 1), (Item(GEAR), 2), (Item(CIRCUIT_SHARD), 1), (Item(PIPE), 1)], vec![(Item(SCIENCE_GREEN), 1)], 3000, 5000)
    };
    assert(recipe_row(r) =~~= table_row(k as int));
    r
}


/// The built-in table in order.
pub fn recipes() -> (r: Vec<Recipe>)
    ensures
        r@.len() == RECIPE_COUNT,
        forall|k: int| 0 <= k < RECIPE_COUNT ==> recipe_row(#[trigger] r@[k]) == table_row(k),
{
    let mut out: Vec<Recipe> = Vec::new();
    let mut k: usize = 0;
    while k < RECIPE_COUNT
        invariant
            k <= RECIPE_COUNT,
            out@.len() == k,
            forall|j: int| 0 <= j < k ==> recipe_row(#[trigger] out@[j]) == table_row(j),
        decreases RECIPE_COUNT - k,
    {
        out.push(recipe_at(k));
        k += 1;
    }
    out
}

/// Rows of the built-in table that run in `machine`, in order.
pub open spec fn machine_rows(machine: MachineKind, k: int) -> Seq<RecipeRow>
    decreases k,
{
    if k <= 0 {
        Seq::empty()
    } else {
        let rest = machine_rows(machine, k - 1);
        if table_row(k - 1).1 == machine {
            rest.push(table_row(k - 1))
        } else {
            rest
        }
    }
}

/// The built-in recipes that run in `machine`, in table order.
pub fn recipes_for(machine: MachineKind) -> (r: Vec<Recipe>)
    ensures
        r@.map_values(|x: Recipe| recipe_row(x)) == machine_rows(machine, RECIPE_COUNT as int),
{
    let mut out: Vec<Recipe> = Vec::new();
    let mut k: usize = 0;
    while k < RECIPE_COUNT
        invariant
            k <= RECIPE_COUNT,
            out@.map_values(|x: Recipe| recipe_row(x)) == machine_rows(machine, k as int),
        decreases RECIPE_COUNT - k,
    {
        let r = recipe_at(k);
        let ghost before = out@.map_values(|x: Recipe| recipe_row(x));
        if r.machine == machine {
            out.push(r);
            assert(out@.map_values(|x: Recipe| recipe_row(x)) =~= before.push(table_row(k as int)));
        }
        k += 1;
    }
    out
}

/// The built-in recipe with the given id, if any.
pub fn recipe_by_id(id: u16) -> (r: Option<Recipe>)
    ensures
        r matches Some(x) ==> exists|k: int| 0 <= k < RECIPE_COUNT && recipe_row(x) == table_row(k) && table_row(k).0 == id,
        r is None <==> forall|k: int| 0 <= k < RECIPE_COUNT ==> #[trigger] table_row(k).0 != id,
{
    let mut k: usize = 0;
    while k < RECIPE_COUNT
        invariant
            k <= RECIPE_COUNT,
            forall|j: int| 0 <= j < k ==> #[trigger] table_row(j).0 != id,
        decreases RECIPE_COUNT - k,
    {
        let r = recipe_at(k);
        if r.id == id {
            assert(table_row(k as int).0 == id);
            return Some(r);
        }
        k += 1;
    }
    None
}

/// Some built-in recipe of `machine` lists `item` among its outputs.
pub open spec fn is_machine_output(machine: MachineKind, item: Item) -> bool {
    exists|k: int|
        #![trigger table_row(k)]
        0 <= k < RECIPE_COUNT && table_row(k).1 == machine && exists|o: int|
            0 <= o < table_row(k).4.len() && table_row(k).4[o].0 == item
}

pub fn item_is_machine_output(machine: MachineKind, item: Item) -> (r: bool)
    ensures
        r == is_machine_output(machine, item),
{
    let mut k: usize = 0;
    while k < RECIPE_COUNT
        invariant
            k <= RECIPE_COUNT,
            forall|j: int|
                #![trigger table_row(j)]
                0 <= j < k && table_row(j).1 == machine ==> forall|o: int|
                    0 <= o < table_row(j).4.len() ==> table_row(j).4[o].0 != item,
        decreases RECIPE_COUNT - k,
    {
        let r = recipe_at(k);
        if r.machine == machine {
            let mut o: usize = 0;
            while o < r.outputs.len()
                invariant
                    k < RECIPE_COUNT,
                    recipe_row(r) == table_row(k as int),
                    r.machine == machine,
                    o <= r.outputs@.len(),
                    forall|p: int| 0 <= p < o ==> r.outputs@[p].0 != item,
                decreases r.outputs@.len() - o,
            {
                if r.outputs[o].0 == item {
                    assert(table_row(k as int).4[o as int].0 == item);
                    assert(table_row(k as int).1 == machine);
                    assert(is_machine_output(machine, item));
                    return true;
                }
                o += 1;
            }
        }
        k += 1;
    }
    false
}

/// Label of a legacy item slot when no content pack is loaded.
pub open spec fn legacy_label(id: u16) -> Seq<char> {
    if id == 0 { "Ferrite Gas"@ }
    else if id == 1 { "Ferrite Plate"@ }
    else if id == 2 { "Conductive Gas"@ }
    else if id == 3 { "Silicate Gas"@ }
    else if id == 4 { "Carbon Gas"@ }
    else if id == 5 { "Hydrocarbon Gas"@ }
    else if id == 6 { "Conductive Plate"@ }
    else if id == 7 { "Stone Dust"@ }
    else if id == 8 { "Carbon Powder"@ }
    else if id == 9 { "Structural Frame"@ }
    else if id == 10 { "Conductive Wire"@ }
    else if id == 11 { "Fastener Set"@ }
    else if id == 12 { "Silicate Brick"@ }
    else if id == 13 { "Pipe Section"@ }
    else if id == 14 { "Machine Frame"@ }
    else if id == 15 { "Circuit Shard"@ }
    else if id == 16 { "Belt Link"@ }
    else if id == 17 { "Pole Kit"@ }
    else if id == 18 { "Solar Cell"@ }
    else if id == 19 { "Ammo Casing"@ }
    else if id == 20 { "Charge Cell"@ }
    else if id == 21 { "Totem Core"@ }
    else if id == 22 { "Engineering Data"@ }
    else if id == 23 { "Chemical Data"@ }
    else { "Item"@ }
}

/// Display label of an item: the loaded registry's name when there is a
/// registry, else the built-in legacy label.
pub open spec fn spec_item_label(reg: Option<&ContentRegistry>, item: Item) -> Seq<char> {
    match reg {
        Some(c) => if (item.0 as int) < c.items.len() { c.items[item.0 as int].name@ } else { "?"@ },
        None => legacy_label(item.0),
    }
}

pub fn item_label<'a>(reg: Option<&'a ContentRegistry>, item: Item) -> (r: &'a str)
    ensures
        r@ == spec_item_label(reg, item),
{
    if let Some(c) = reg {
        return c.label(item);
    }
    let id = item.as_u16();
    if id == 0 { "Ferrite Gas" }
    else if id == 1 { "Ferrite Plate" }
    else if id == 2 { "Conductive Gas" }
    else if id == 3 { "Silicate Gas" }
    else if id == 4 { "Carbon Gas" }
    else if id == 5 { "Hydrocarbon Gas" }
    else if id == 6 { "Conductive Plate" }
    else if id == 7 { "Stone Dust" }
    else if id == 8 { "Carbon Powder" }
    else if id == 9 { "Structural Frame" }
    else if id == 10 { "Conductive Wire" }
    else if id == 11 { "Fastener Set" }
    else if id == 12 { "Silicate Brick" }
    else if id == 13 { "Pipe Section" }
    else if id == 14 { "Machine Frame" }
    else if id == 15 { "Circuit Shard" }
    else if id == 16 { "Belt Link" }
    else if id == 17 { "Pole Kit" }
    else if id == 18 { "Solar Cell" }
    else if id == 19 { "Ammo Casing" }
    else if id == 20 { "Charge Cell" }
    else if id == 21 { "Totem Core" }
    else if id == 22 { "Engineering Data" }
    else if id == 23 { "Chemical Data" }
    else { "Item" }
}

} // verus!
