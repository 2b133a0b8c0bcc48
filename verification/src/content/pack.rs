//! Interning a content pack: legacy item slots, pack items and fluids,
//! machines, recipes (with item stubs for ids the pack never declared),
//! technologies, validation and the manifest cross-check. Reading the JSON
//! files happens at the program's edge; this module gets their entries.

use vstd::prelude::*;
use vstd::string::{StrSliceExecFns, StringExecFns};
use crate::content::registry::{ContentRegistry, ContentStats};
use crate::content::types::{
    spec_kind_from_str, ItemDef, ItemKind, Manifest, RuntimeItem, RuntimeRecipe, RuntimeTech, TechDef,
};
use crate::sim::Item;
use crate::text::{
    contains_run, decimal, dedup, lemma_dedup_contains, lemma_dedup_push, push_decimal, push_str, str_contains, str_eq,
    str_starts_with,
};

verus! {

/// Number of legacy item slots reserved ahead of the pack's own items.
pub const LEGACY_SLOTS: usize = 24;

/// Legacy slot `i`: the pack id it is aliased to, its display name and kind.
/// Slot order matches the `Item` constants.
pub open spec fn legacy_entry(i: int) -> (Seq<char>, Seq<char>, ItemKind) {
    if i == 0 {
        ("era1_raw_ferrite_ore"@, "Ferrite Gas"@, ItemKind::Item)
    } else if i == 1 {
        ("era1_material_ferrite_plate"@, "Ferrite Plate"@, ItemKind::Item)
    } else if i == 2 {
        ("era1_raw_conductive_ore"@, "Conductive Gas"@, ItemKind::Item)
    } else if i == 3 {
        ("era1_raw_silicate_rock"@, "Silicate Gas"@, ItemKind::Item)
    } else if i == 4 {
        ("era1_raw_carbon_deposit"@, "Carbon Gas"@, ItemKind::Item)
    } else if i == 5 {
        ("era1_fluid_raw_hydrocarbon"@, "Hydrocarbon Gas"@, ItemKind::Fluid)
    } else if i == 6 {
        ("era1_material_conductive_plate"@, "Conductive Plate"@, ItemKind::Item)
    } else if i == 7 {
        ("era1_waste_stone_dust"@, "Stone Dust"@, ItemKind::Waste)
    } else if i == 8 {
        ("era1_material_carbon_powder"@, "Carbon Powder"@, ItemKind::Item)
    } else if i == 9 {
        ("era1_component_structural_frame"@, "Structural Frame"@, ItemKind::Item)
    } else if i == 10 {
        ("era1_component_conductive_wire"@, "Conductive Wire"@, ItemKind::Item)
    } else if i == 11 {
        ("era1_component_fastener_set"@, "Fastener Set"@, ItemKind::Item)
    } else if i == 12 {
        ("era1_material_silicate_brick"@, "Silicate Brick"@, ItemKind::Item)
    } else if i == 13 {
        ("era1_component_pipe_section"@, "Pipe Section"@, ItemKind::Item)
    } else if i == 14 {
        ("era1_component_machine_frame"@, "Machine Frame"@, ItemKind::Item)
    } else if i == 15 {
        ("era1_component_circuit_shard"@, "Circuit Shard"@, ItemKind::Item)
    } else if i == 16 {
        ("era1_component_belt_link"@, "Belt Link"@, ItemKind::Item)
    } else if i == 17 {
        ("era1_component_pole_kit"@, "Pole Kit"@, ItemKind::Item)
    } else if i == 18 {
        ("era1_component_solar_cell"@, "Solar Cell"@, ItemKind::Item)
    } else if i == 19 {
        ("era1_military_ammo_casing"@, "Ammo Casing"@, ItemKind::Item)
    } else if i == 20 {
        ("era1_military_charge_cell"@, "Charge Cell"@, ItemKind::Item)
    } else if i == 21 {
        ("era1_component_totem_core"@, "Totem Core"@, ItemKind::Item)
    } else if i == 22 {
        ("era1_science_engineering_data"@, "Engineering Data"@, ItemKind::Item)
    } else {
        ("era1_science_chemical_data"@, "Chemical Data"@, ItemKind::Item)
    }
}

/// Legacy slot `i` (`i < 24`) as literals.
pub fn legacy_alias(i: usize) -> (r: (&'static str, &'static str, ItemKind))
    requires
        i < LEGACY_SLOTS,
    ensures
        (r.0@, r.1@, r.2) == legacy_entry(i as int),
{
    match i {
        0 => ("era1_raw_ferrite_ore", "Ferrite Gas", ItemKind::Item),
        1 => ("era1_material_ferrite_plate", "Ferrite Plate", ItemKind::Item),
        2 => ("era1_raw_conductive_ore", "Conductive Gas", ItemKind::Item),
        3 => ("era1_raw_silicate_rock", "Silicate Gas", ItemKind::Item),
        4 => ("era1_raw_carbon_deposit", "Carbon Gas", ItemKind::Item),
        5 => ("era1_fluid_raw_hydrocarbon", "Hydrocarbon Gas", ItemKind::Fluid),
        6 => ("era1_material_conductive_plate", "Conductive Plate", ItemKind::Item),
        7 => ("era1_waste_stone_dust", "Stone Dust", ItemKind::Waste),
        8 => ("era1_material_carbon_powder", "Carbon Powder", ItemKind::Item),
        9 => ("era1_component_structural_frame", "Structural Frame", ItemKind::Item),
        10 => ("era1_component_conductive_wire", "Conductive Wire", ItemKind::Item),
        11 => ("era1_component_fastener_set", "Fastener Set", ItemKind::Item),
        12 => ("era1_material_silicate_brick", "Silicate Brick", ItemKind::Item),
        13 => ("era1_component_pipe_section", "Pipe Section", ItemKind::Item),
        14 => ("era1_component_machine_frame", "Machine Frame", ItemKind::Item),
        15 => ("era1_component_circuit_shard", "Circuit Shard", ItemKind::Item),
        16 => ("era1_component_belt_link", "Belt Link", ItemKind::Item),
        17 => ("era1_component_pole_kit", "Pole Kit", ItemKind::Item),
        18 => ("era1_component_solar_cell", "Solar Cell", ItemKind::Item),
        19 => ("era1_military_ammo_casing", "Ammo Casing", ItemKind::Item),
        20 => ("era1_military_charge_cell", "Charge Cell", ItemKind::Item),
        21 => ("era1_component_totem_core", "Totem Core", ItemKind::Item),
        22 => ("era1_science_engineering_data", "Engineering Data", ItemKind::Item),
        _ => ("era1_science_chemical_data", "Chemical Data", ItemKind::Item),
    }
}

/// No two legacy slots share a pack id.
pub proof fn lemma_legacy_ids_distinct()
    ensures
        forall|i: int, j: int| 0 <= i < j < 24 ==> #[trigger] legacy_entry(i).0 != #[trigger] legacy_entry(j).0,
{
    reveal_strlit("era1_raw_ferrite_ore");
    reveal_strlit("era1_material_ferrite_plate");
    reveal_strlit("era1_raw_conductive_ore");
    reveal_strlit("era1_raw_silicate_rock");
    reveal_strlit("era1_raw_carbon_deposit");
    reveal_strlit("era1_fluid_raw_hydrocarbon");
    reveal_strlit("era1_material_conductive_plate");
    reveal_strlit("era1_waste_stone_dust");
    reveal_strlit("era1_material_carbon_powder");
    reveal_strlit("era1_component_structural_frame");
    reveal_strlit("era1_component_conductive_wire");
    reveal_strlit("era1_component_fastener_set");
    reveal_strlit("era1_material_silicate_brick");
    reveal_strlit("era1_component_pipe_section");
    reveal_strlit("era1_component_machine_frame");
    reveal_strlit("era1_component_circuit_shard");
    reveal_strlit("era1_component_belt_link");
    reveal_strlit("era1_component_pole_kit");
    reveal_strlit("era1_component_solar_cell");
    reveal_strlit("era1_military_ammo_casing");
    reveal_strlit("era1_military_charge_cell");
    reveal_strlit("era1_component_totem_core");
    reveal_strlit("era1_science_engineering_data");
    reveal_strlit("era1_science_chemical_data");
    assert forall|i: int, j: int| 0 <= i < j < 24 implies legacy_entry(i).0 != legacy_entry(j).0 by {
        let a = legacy_entry(i).0;
        let b = legacy_entry(j).0;
        if a.len() == b.len() {
            assert(a[5] != b[5] || a[6] != b[6] || a[9] != b[9] || a[10] != b[10] || a[14] != b[14] || a[15]
                != b[15] || a[16] != b[16] || a[17] != b[17] || a[20] != b[20]);
        }
    }
}


// ---------------------------------------------------------------------------
// Items as plain values

/// An interned item as plain values (its slot index aside).
pub struct ItemModel {
    pub id: Seq<char>,
    pub name: Seq<char>,
    pub kind: ItemKind,
    pub era: u8,
    pub category: Seq<char>,
    pub description: Seq<char>,
    pub state: Option<Seq<char>>,
    pub stack_size: u32,
    pub purity_supported: bool,
    pub grade_supported: bool,
    pub family: Seq<char>,
}

pub open spec fn opt_text(o: Option<String>) -> Option<Seq<char>> {
    match o {
        Some(s) => Some(s@),
        None => None,
    }
}

pub open spec fn item_model(it: RuntimeItem) -> ItemModel {
    ItemModel {
        id: it.id@,
        name: it.name@,
        kind: it.kind,
        era: it.era,
        category: it.category@,
        description: it.description@,
        state: opt_text(it.state),
        stack_size: it.stack_size,
        purity_supported: it.purity_supported,
        grade_supported: it.grade_supported,
        family: it.family@,
    }
}

pub open spec fn items_model(items: Seq<RuntimeItem>) -> Seq<ItemModel> {
    items.map_values(|it: RuntimeItem| item_model(it))
}

/// Legacy slot `i` as an interned item: era 1, stack 200, purity for raw
/// ores, materials and waste, grades for materials and military parts.
pub open spec fn legacy_model(i: int) -> ItemModel {
    let id = legacy_entry(i).0;
    let kind = legacy_entry(i).2;
    ItemModel {
        id,
        name: legacy_entry(i).1,
        kind,
        era: 1,
        category: "legacy"@,
        description: Seq::empty(),
        state: None,
        stack_size: 200,
        purity_supported: (kind == ItemKind::Item || kind == ItemKind::Waste) && (contains_run(id, "raw_"@)
            || contains_run(id, "material_"@) || contains_run(id, "waste_"@)),
        grade_supported: contains_run(id, "material_"@) || contains_run(id, "military_"@),
        family: "legacy"@,
    }
}

pub open spec fn legacy_models() -> Seq<ItemModel> {
    Seq::new(24, |i: int| legacy_model(i))
}

pub open spec fn has_id(items: Seq<ItemModel>, id: Seq<char>) -> bool {
    exists|k: int| 0 <= k < items.len() && items[k].id == id
}

/// Where an id sits (meaningful when it is there; ids are unique).
pub open spec fn id_pos(items: Seq<ItemModel>, id: Seq<char>) -> int {
    choose|k: int| 0 <= k < items.len() && items[k].id == id
}

/// A new pack item or fluid.
pub open spec fn def_model(def: ItemDef) -> ItemModel {
    ItemModel {
        id: def.id@,
        name: def.name@,
        kind: spec_kind_from_str(def.kind@),
        era: def.era,
        category: def.category@,
        description: def.description@,
        state: opt_text(def.state),
        stack_size: def.stack_size,
        purity_supported: def.purity_supported,
        grade_supported: def.grade_supported,
        family: def.family@,
    }
}

/// A pack entry for an id already interned refreshes it: the name when the
/// entry has one, and era, category, description, state, flags, stack size
/// and family; id and kind stay.
pub open spec fn def_update(m: ItemModel, def: ItemDef) -> ItemModel {
    ItemModel {
        id: m.id,
        name: if def.name@.len() > 0 { def.name@ } else { m.name },
        kind: m.kind,
        era: def.era,
        category: def.category@,
        description: def.description@,
        state: opt_text(def.state),
        stack_size: def.stack_size,
        purity_supported: def.purity_supported,
        grade_supported: def.grade_supported,
        family: def.family@,
    }
}

pub open spec fn add_def(items: Seq<ItemModel>, def: ItemDef) -> Seq<ItemModel> {
    if has_id(items, def.id@) {
        let k = id_pos(items, def.id@);
        items.update(k, def_update(items[k], def))
    } else {
        items.push(def_model(def))
    }
}

pub open spec fn add_defs(items: Seq<ItemModel>, defs: Seq<ItemDef>) -> Seq<ItemModel>
    decreases defs.len(),
{
    if defs.len() == 0 {
        items
    } else {
        add_def(add_defs(items, defs.drop_last()), defs.last())
    }
}

/// Registry tables other than the items are untouched.
pub open spec fn same_but_items(a: &ContentRegistry, b: &ContentRegistry) -> bool {
    &&& a.recipes == b.recipes
    &&& a.machine_ids == b.machine_ids
    &&& a.techs == b.techs
    &&& a.stats == b.stats
    &&& a.validation_errors == b.validation_errors
}

/// Kind of an item the pack never declared, read off its id prefix.
pub open spec fn stub_kind(id: Seq<char>) -> ItemKind {
    if "era1_fluid_"@.is_prefix_of(id) {
        ItemKind::Fluid
    } else if "era1_gas_"@.is_prefix_of(id) {
        ItemKind::Gas
    } else if "era1_waste_"@.is_prefix_of(id) {
        ItemKind::Waste
    } else {
        ItemKind::Item
    }
}

/// The text after the last `_` (all of it when there is none).
pub open spec fn last_segment(id: Seq<char>) -> Seq<char>
    decreases id.len(),
{
    if id.len() == 0 {
        id
    } else if id.last() == '_' {
        Seq::empty()
    } else {
        last_segment(id.drop_last()).push(id.last())
    }
}

/// The stub interned for an id a recipe names but the pack never declared.
pub open spec fn stub_model(id: Seq<char>) -> ItemModel {
    ItemModel {
        id,
        name: last_segment(id),
        kind: stub_kind(id),
        era: 1,
        category: "auto"@,
        description: Seq::empty(),
        state: None,
        stack_size: 100,
        purity_supported: true,
        grade_supported: false,
        family: "auto"@,
    }
}

/// The index of `id`, interning a stub first when it is unknown.
pub open spec fn ensure_id(items: Seq<ItemModel>, id: Seq<char>) -> (Seq<ItemModel>, int) {
    if has_id(items, id) {
        (items, id_pos(items, id))
    } else {
        (items.push(stub_model(id)), items.len() as int)
    }
}

/// Indices of a list of ids, interning stubs as needed, in list order.
pub open spec fn resolve_ids(items: Seq<ItemModel>, ids: Seq<Seq<char>>) -> (Seq<ItemModel>, Seq<u16>)
    decreases ids.len(),
{
    if ids.len() == 0 {
        (items, Seq::empty())
    } else {
        let (before, got) = resolve_ids(items, ids.drop_last());
        let (after, k) = ensure_id(before, ids.last());
        (after, got.push(k as u16))
    }
}

pub open spec fn texts(v: Seq<String>) -> Seq<Seq<char>> {
    v.map_values(|s: String| s@)
}

pub proof fn lemma_encode_concat(a: Seq<char>, b: Seq<char>)
    ensures
        vstd::utf8::encode_utf8(a + b) == vstd::utf8::encode_utf8(a) + vstd::utf8::encode_utf8(b),
    decreases a.len(),
{
    if a.len() == 0 {
        assert(a + b =~= b);
        assert(vstd::utf8::encode_utf8(a) =~= Seq::<u8>::empty());
        assert(Seq::<u8>::empty() + vstd::utf8::encode_utf8(b) =~= vstd::utf8::encode_utf8(b));
    } else {
        lemma_encode_concat(a.drop_first(), b);
        assert((a + b).drop_first() =~= a.drop_first() + b);
        assert((a + b)[0] == a[0]);
        let e = vstd::utf8::encode_scalar(a[0] as u32);
        assert(e + (vstd::utf8::encode_utf8(a.drop_first()) + vstd::utf8::encode_utf8(b)) =~= e
            + vstd::utf8::encode_utf8(a.drop_first()) + vstd::utf8::encode_utf8(b));
    }
}

/// The text after the last `_` takes no more bytes than the whole id.
pub proof fn lemma_last_segment_bytes(id: Seq<char>)
    ensures
        vstd::utf8::encode_utf8(last_segment(id)).len() <= vstd::utf8::encode_utf8(id).len(),
    decreases id.len(),
{
    if id.len() > 0 {
        let d = id.drop_last();
        let c = id.last();
        lemma_encode_concat(d, seq![c]);
        assert(d + seq![c] =~= id);
        if c != '_' {
            lemma_last_segment_bytes(d);
            lemma_encode_concat(last_segment(d), seq![c]);
            assert(last_segment(d) + seq![c] =~= last_segment(d).push(c));
        } else {
            assert(vstd::utf8::encode_utf8(Seq::<char>::empty()).len() == 0);
        }
    }
}

proof fn lemma_last_segment_from(s: Seq<char>, start: int)
    requires
        0 <= start <= s.len(),
        start == 0 || s[start - 1] == '_',
        forall|j: int| start <= j < s.len() ==> s[j] != '_',
    ensures
        last_segment(s) == s.subrange(start, s.len() as int),
    decreases s.len(),
{
    if s.len() == start {
        if start > 0 {
            assert(s.last() == '_');
        }
        assert(s.subrange(start, s.len() as int) =~= Seq::<char>::empty());
    } else {
        lemma_last_segment_from(s.drop_last(), start);
        assert(s.subrange(start, s.len() as int) =~= s.drop_last().subrange(start, s.len() - 1).push(s.last()));
    }
}

/// The text after the last `_` of an id.
pub(crate) fn last_segment_of(id: &str) -> (r: String)
    ensures
        r@ == last_segment(id@),
{
    let n = id.unicode_len();
    let mut start: usize = 0;
    let mut i: usize = 0;
    while i < n
        invariant
            n == id@.len(),
            start <= i <= n,
            start == 0 || id@[start - 1] == '_',
            forall|j: int| start <= j < i ==> id@[j] != '_',
        decreases n - i,
    {
        if id.get_char(i) == '_' {
            start = i + 1;
        }
        i += 1;
    }
    proof {
        lemma_last_segment_from(id@, start as int);
    }
    String::from_str(id.substring_char(start, n))
}

// ---------------------------------------------------------------------------
// Recipes

/// A pack recipe as the registry reads it: its texts and the item ids it
/// takes and gives. Amounts, timing and power stay with the simulation.
#[derive(Clone, Debug)]
pub struct RecipeEntry {
    pub id: String,
    pub name: String,
    pub category: String,
    pub description: String,
    pub machine: String,
    pub inputs: Vec<String>,
    pub outputs: Vec<String>,
    pub waste: Vec<String>,
    pub technology_unlock: String,
    pub extracts: Option<String>,
}

/// Number of item references in a recipe entry.
pub open spec fn io_count(e: RecipeEntry) -> nat {
    e.inputs@.len() + e.outputs@.len() + e.waste@.len()
}

/// An interned recipe as plain values.
pub struct RecipeModel {
    pub id: Seq<char>,
    pub name: Seq<char>,
    pub category: Seq<char>,
    pub description: Seq<char>,
    pub machine: Seq<char>,
    pub machine_idx: Option<u16>,
    pub inputs: Seq<u16>,
    pub outputs: Seq<u16>,
    pub waste: Seq<u16>,
    pub technology_unlock: Seq<char>,
    pub extracts: Option<Seq<char>>,
    pub index: u16,
}

pub open spec fn recipe_model(r: RuntimeRecipe) -> RecipeModel {
    RecipeModel {
        id: r.id@,
        name: r.name@,
        category: r.category@,
        description: r.description@,
        machine: r.machine@,
        machine_idx: r.machine_idx,
        inputs: r.inputs@,
        outputs: r.outputs@,
        waste: r.waste@,
        technology_unlock: r.technology_unlock@,
        extracts: opt_text(r.extracts),
        index: r.index,
    }
}

pub open spec fn recipes_model(rs: Seq<RuntimeRecipe>) -> Seq<RecipeModel> {
    rs.map_values(|r: RuntimeRecipe| recipe_model(r))
}

/// The technology that unlocks a recipe: basic recovery when the pack names
/// none, and the waste-recovery tech under its older name.
pub open spec fn unlock_of(t: Seq<char>) -> Seq<char> {
    let u = if t.len() == 0 { "era1_tech_basic_recovery"@ } else { t };
    if u == "era1_tech_waste_management"@ {
        "era1_tech_waste_recovery"@
    } else {
        u
    }
}

/// Index of a machine id among the interned machines.
pub open spec fn machine_slot(machines: Seq<Seq<char>>, m: Seq<char>) -> Option<u16> {
    if machines.contains(m) {
        Some(machines.index_of(m) as u16)
    } else {
        None
    }
}

pub open spec fn has_recipe_id(rs: Seq<RecipeModel>, id: Seq<char>) -> bool {
    exists|k: int| 0 <= k < rs.len() && rs[k].id == id
}

/// Every recipe's inputs, outputs and waste name items in the table.
pub open spec fn refs_in_range(reg: &ContentRegistry) -> bool {
    forall|k: int|
        0 <= k < reg.recipes.len() ==> {
            let r = #[trigger] reg.recipes[k];
            &&& forall|j: int| 0 <= j < r.inputs.len() ==> (#[trigger] r.inputs@[j] as int) < reg.items.len()
            &&& forall|j: int| 0 <= j < r.outputs.len() ==> (#[trigger] r.outputs@[j] as int) < reg.items.len()
            &&& forall|j: int| 0 <= j < r.waste.len() ==> (#[trigger] r.waste@[j] as int) < reg.items.len()
        }
}

/// Interned items and recipes.
pub type Interned = (Seq<ItemModel>, Seq<RecipeModel>);

/// A recipe entry whose id is new is interned under the next 1-based
/// index, its inputs, outputs and waste resolved in that order; a repeated
/// id is skipped.
pub open spec fn add_recipe_entry(st: Interned, e: RecipeEntry, machines: Seq<Seq<char>>) -> Interned {
    if has_recipe_id(st.1, e.id@) {
        st
    } else {
        let (i1, ins) = resolve_ids(st.0, texts(e.inputs@));
        let (i2, outs) = resolve_ids(i1, texts(e.outputs@));
        let (i3, ws) = resolve_ids(i2, texts(e.waste@));
        (
            i3,
            st.1.push(
                RecipeModel {
                    id: e.id@,
                    name: e.name@,
                    category: e.category@,
                    description: e.description@,
                    machine: e.machine@,
                    machine_idx: machine_slot(machines, e.machine@),
                    inputs: ins,
                    outputs: outs,
                    waste: ws,
                    technology_unlock: unlock_of(e.technology_unlock@),
                    extracts: opt_text(e.extracts),
                    index: (st.1.len() + 1) as u16,
                },
            ),
        )
    }
}

pub open spec fn add_recipe_entries(st: Interned, es: Seq<RecipeEntry>, machines: Seq<Seq<char>>) -> Interned
    decreases es.len(),
{
    if es.len() == 0 {
        st
    } else {
        add_recipe_entry(add_recipe_entries(st, es.drop_last(), machines), es.last(), machines)
    }
}

// ---------------------------------------------------------------------------
// Machines and technologies

/// Positions of the first occurrence of each id, in order.
pub open spec fn first_positions(ids: Seq<Seq<char>>) -> Seq<int>
    decreases ids.len(),
{
    if ids.len() == 0 {
        Seq::empty()
    } else if ids.drop_last().contains(ids.last()) {
        first_positions(ids.drop_last())
    } else {
        first_positions(ids.drop_last()).push(ids.len() - 1)
    }
}

pub open spec fn positions(v: Seq<usize>) -> Seq<int> {
    v.map_values(|p: usize| p as int)
}

pub open spec fn tech_def_ids(ts: Seq<TechDef>) -> Seq<Seq<char>> {
    ts.map_values(|t: TechDef| t.id@)
}

pub open spec fn tech_ids(ts: Seq<RuntimeTech>) -> Seq<Seq<char>> {
    ts.map_values(|t: RuntimeTech| t.id@)
}

/// An interned technology carries its pack entry's fields and its slot.
pub open spec fn tech_matches(t: RuntimeTech, d: TechDef, k: int) -> bool {
    &&& t.id@ == d.id@
    &&& t.name@ == d.name@
    &&& t.tier == d.tier
    &&& t.era == d.era
    &&& t.description@ == d.description@
    &&& t.purpose@ == d.purpose@
    &&& t.science_cost@ == d.science_cost@
    &&& texts(t.prerequisites@) == texts(d.prerequisites@)
    &&& texts(t.unlocks@) == texts(d.unlocks@)
    &&& t.index == k
}

proof fn lemma_texts_take(v: Seq<String>, k: int)
    requires
        0 <= k < v.len(),
    ensures
        texts(v).take(k + 1).drop_last() == texts(v).take(k),
        texts(v).take(k + 1).last() == v[k]@,
        texts(v).take(k + 1).drop_last().len() == k,
{
    assert(texts(v).take(k + 1).drop_last() =~= texts(v).take(k));
}

proof fn lemma_first_positions_bound(ids: Seq<Seq<char>>)
    ensures
        first_positions(ids).len() == dedup(ids).len(),
        forall|j: int| 0 <= j < first_positions(ids).len() ==> 0 <= #[trigger] first_positions(ids)[j] < ids.len(),
        forall|j: int| 0 <= j < first_positions(ids).len() ==> ids[#[trigger] first_positions(ids)[j]] == dedup(ids)[j],
    decreases ids.len(),
{
    if ids.len() > 0 {
        lemma_first_positions_bound(ids.drop_last());
    }
}

// ---------------------------------------------------------------------------
// Validation

/// One message per item reference at or past the end of the item table.
pub open spec fn bad_refs(id: Seq<char>, refs: Seq<u16>, n: nat) -> Seq<Seq<char>>
    decreases refs.len(),
{
    if refs.len() == 0 {
        Seq::empty()
    } else {
        bad_refs(id, refs.drop_last(), n) + if refs.last() >= n {
            seq!["recipe "@ + id + " bad item index "@ + decimal(refs.last() as nat)]
        } else {
            Seq::empty()
        }
    }
}

/// What is wrong with one recipe: a machine the pack lacks, an unlock tech
/// the pack lacks, item references out of range.
pub open spec fn recipe_issues(r: RuntimeRecipe, n: nat, tids: Seq<Seq<char>>) -> Seq<Seq<char>> {
    (if r.machine_idx is None && r.machine@.len() > 0 {
        seq!["recipe "@ + r.id@ + " missing machine "@ + r.machine@]
    } else {
        Seq::empty()
    }) + (if r.technology_unlock@.len() > 0 && !tids.contains(r.technology_unlock@) {
        seq!["recipe "@ + r.id@ + " tech unlock "@ + r.technology_unlock@ + " not in pack"@]
    } else {
        Seq::empty()
    }) + bad_refs(r.id@, r.inputs@ + r.outputs@ + r.waste@, n)
}

pub open spec fn recipes_issues(rs: Seq<RuntimeRecipe>, n: nat, tids: Seq<Seq<char>>) -> Seq<Seq<char>>
    decreases rs.len(),
{
    if rs.len() == 0 {
        Seq::empty()
    } else {
        recipes_issues(rs.drop_last(), n, tids) + recipe_issues(rs.last(), n, tids)
    }
}

/// One message per prerequisite the pack lacks.
pub open spec fn missing_prereqs(id: Seq<char>, ps: Seq<Seq<char>>, tids: Seq<Seq<char>>) -> Seq<Seq<char>>
    decreases ps.len(),
{
    if ps.len() == 0 {
        Seq::empty()
    } else {
        missing_prereqs(id, ps.drop_last(), tids) + if tids.contains(ps.last()) {
            Seq::empty()
        } else {
            seq!["tech "@ + id + " missing prereq "@ + ps.last()]
        }
    }
}

pub open spec fn techs_issues(ts: Seq<RuntimeTech>, tids: Seq<Seq<char>>) -> Seq<Seq<char>>
    decreases ts.len(),
{
    if ts.len() == 0 {
        Seq::empty()
    } else {
        techs_issues(ts.drop_last(), tids) + missing_prereqs(ts.last().id@, texts(ts.last().prerequisites@), tids)
    }
}

/// Every validation message for a registry, recipes first, in table order.
pub open spec fn registry_issues(reg: &ContentRegistry) -> Seq<Seq<char>> {
    recipes_issues(reg.recipes@, reg.items.len() as nat, tech_ids(reg.techs@)) + techs_issues(
        reg.techs@,
        tech_ids(reg.techs@),
    )
}

proof fn lemma_bad_refs_concat(id: Seq<char>, a: Seq<u16>, b: Seq<u16>, n: nat)
    ensures
        bad_refs(id, a + b, n) == bad_refs(id, a, n) + bad_refs(id, b, n),
    decreases b.len(),
{
    if b.len() == 0 {
        assert(a + b =~= a);
        assert(bad_refs(id, a, n) + bad_refs(id, b, n) =~= bad_refs(id, a, n));
    } else {
        lemma_bad_refs_concat(id, a, b.drop_last(), n);
        assert((a + b).drop_last() =~= a + b.drop_last());
        assert((a + b).last() == b.last());
        let tail = if b.last() >= n {
            seq!["recipe "@ + id + " bad item index "@ + decimal(b.last() as nat)]
        } else {
            Seq::<Seq<char>>::empty()
        };
        assert(bad_refs(id, a, n) + bad_refs(id, b.drop_last(), n) + tail =~= bad_refs(id, a, n) + (bad_refs(
            id,
            b.drop_last(),
            n,
        ) + tail));
    }
}

/// A message `"recipe <id> bad item index <n>"` per out-of-range reference.
fn push_bad_refs(errs: &mut Vec<String>, id: &str, refs: &Vec<u16>, n: usize)
    ensures
        texts(final(errs)@) == texts(old(errs)@) + bad_refs(id@, refs@, n as nat),
{
    let ghost start = texts(errs@);
    let mut k: usize = 0;
    while k < refs.len()
        invariant
            k <= refs.len(),
            texts(errs@) == start + bad_refs(id@, refs@.take(k as int), n as nat),
        decreases refs.len() - k,
    {
        proof {
            assert(refs@.take(k + 1).drop_last() =~= refs@.take(k as int));
        }
        let ghost before = texts(errs@);
        if refs[k] as usize >= n {
            let mut m = String::from_str("recipe ");
            push_str(&mut m, id);
            push_str(&mut m, " bad item index ");
            push_decimal(&mut m, refs[k] as u64);
            errs.push(m);
            proof {
                assert(texts(errs@) =~= before.push(m@));
                assert(before.push(m@) =~= start + bad_refs(id@, refs@.take(k as int), n as nat) + seq![m@]);
            }
        } else {
            assert(bad_refs(id@, refs@.take(k + 1), n as nat) =~= bad_refs(id@, refs@.take(k as int), n as nat)
                + Seq::<Seq<char>>::empty());
        }
        k += 1;
    }
    assert(refs@.take(refs.len() as int) =~= refs@);
}

// ---------------------------------------------------------------------------
// The whole pack

/// A content pack as read from its files: items, fluids, recipes, machine
/// ids, technologies and, when it could be read, the manifest.
pub struct ContentPack {
    pub items: Vec<ItemDef>,
    pub fluids: Vec<ItemDef>,
    pub recipes: Vec<RecipeEntry>,
    pub machines: Vec<String>,
    pub techs: Vec<TechDef>,
    pub manifest: Option<Manifest>,
}

/// Which pack entries were interned, as positions in the pack's lists:
/// machine `k` is `machines[k]` of the pack, and so on. Later entries that
/// repeat an id are left out.
pub struct PackOrder {
    pub machines: Vec<usize>,
    pub recipes: Vec<usize>,
    pub techs: Vec<usize>,
}

/// Item references over a list of recipe entries.
pub open spec fn total_io(es: Seq<RecipeEntry>) -> nat
    decreases es.len(),
{
    if es.len() == 0 {
        0
    } else {
        total_io(es.drop_last()) + io_count(es.last())
    }
}

/// A pack small enough for 16-bit item, recipe, machine and tech indices.
pub open spec fn pack_fits(p: ContentPack) -> bool {
    &&& LEGACY_SLOTS + p.items@.len() + p.fluids@.len() + total_io(p.recipes@) < u16::MAX
    &&& p.recipes@.len() + 1 < u16::MAX
    &&& p.machines@.len() < u16::MAX
    &&& p.techs@.len() < u16::MAX
}

pub open spec fn recipe_entry_ids(es: Seq<RecipeEntry>) -> Seq<Seq<char>> {
    es.map_values(|e: RecipeEntry| e.id@)
}

pub open spec fn recipe_ids(rs: Seq<RecipeModel>) -> Seq<Seq<char>> {
    rs.map_values(|r: RecipeModel| r.id)
}

/// Items and recipes after interning a whole pack: the legacy slots, the
/// pack's items then fluids, then its recipes (with their stubs).
pub open spec fn pack_interned(p: ContentPack) -> Interned {
    add_recipe_entries(
        (add_defs(legacy_models(), p.items@ + p.fluids@), Seq::empty()),
        p.recipes@,
        dedup(texts(p.machines@)),
    )
}

/// How many items are fluids or gases.
pub open spec fn fluid_count(items: Seq<ItemModel>) -> nat
    decreases items.len(),
{
    if items.len() == 0 {
        0
    } else {
        fluid_count(items.drop_last()) + if items.last().kind.spec_is_fluid() {
            1nat
        } else {
            0nat
        }
    }
}

/// Table sizes: items (fluids aside), fluids, recipes, machines, techs.
pub open spec fn stats_of(reg: &ContentRegistry) -> ContentStats {
    let f = fluid_count(items_model(reg.items@));
    ContentStats {
        items: (reg.items.len() - f) as usize,
        fluids: f as usize,
        recipes: reg.recipes.len(),
        machines: reg.machine_ids.len(),
        technologies: reg.techs.len(),
    }
}

/// A manifest count the pack falls short of (loaded items include the
/// legacy slots, so having more is fine).
pub open spec fn count_issue(label: Seq<char>, expect: usize, got: usize, name: Seq<char>) -> Seq<Seq<char>> {
    if got < expect {
        seq![
            "manifest "@ + label + ": pack has "@ + decimal(got as nat) + ", expected at least "@ + decimal(
                expect as nat,
            ) + " ("@ + name + ")"@,
        ]
    } else {
        Seq::empty()
    }
}

pub open spec fn manifest_issues(m: Manifest, s: ContentStats) -> Seq<Seq<char>> {
    count_issue("items"@, m.counts.items, s.items, m.name@) + count_issue("fluids"@, m.counts.fluids, s.fluids, m.name@)
        + count_issue("recipes"@, m.counts.recipes, s.recipes, m.name@) + count_issue(
        "machines"@,
        m.counts.machines,
        s.machines,
        m.name@,
    ) + count_issue("technologies"@, m.counts.technologies, s.technologies, m.name@)
}

proof fn lemma_fluid_count_bound(items: Seq<ItemModel>)
    ensures
        fluid_count(items) <= items.len(),
    decreases items.len(),
{
    if items.len() > 0 {
        lemma_fluid_count_bound(items.drop_last());
    }
}

proof fn lemma_total_io_take(es: Seq<RecipeEntry>, k: int)
    requires
        0 <= k <= es.len(),
    ensures
        total_io(es.take(k)) <= total_io(es),
        k < es.len() ==> total_io(es.take(k + 1)) == total_io(es.take(k)) + io_count(es[k]),
    decreases es.len() - k,
{
    if k < es.len() {
        assert(es.take(k + 1).drop_last() =~= es.take(k));
        lemma_total_io_take(es, k + 1);
    } else {
        assert(es.take(k) =~= es);
    }
}

/// Resolving a pack leaves no dangling item reference, so validation
/// reports none.
pub proof fn lemma_no_bad_refs(id: Seq<char>, refs: Seq<u16>, n: nat)
    requires
        forall|j: int| 0 <= j < refs.len() ==> (#[trigger] refs[j] as int) < n,
    ensures
        bad_refs(id, refs, n) == Seq::<Seq<char>>::empty(),
    decreases refs.len(),
{
    if refs.len() > 0 {
        lemma_no_bad_refs(id, refs.drop_last(), n);
        assert(refs.last() == refs[refs.len() - 1]);
        assert(bad_refs(id, refs, n) =~= Seq::<Seq<char>>::empty());
    }
}

/// A `"manifest <label>: …"` message when the pack falls short.
fn check_count(errs: &mut Vec<String>, label: &str, expect: usize, got: usize, name: &str)
    ensures
        texts(final(errs)@) == texts(old(errs)@) + count_issue(label@, expect, got, name@),
{
    let ghost before = texts(errs@);
    if got < expect {
        let mut m = String::from_str("manifest ");
        push_str(&mut m, label);
        push_str(&mut m, ": pack has ");
        push_decimal(&mut m, got as u64);
        push_str(&mut m, ", expected at least ");
        push_decimal(&mut m, expect as u64);
        push_str(&mut m, " (");
        push_str(&mut m, name);
        push_str(&mut m, ")");
        errs.push(m);
        assert(texts(errs@) =~= before + seq![m@]);
    } else {
        assert(texts(errs@) =~= before + Seq::<Seq<char>>::empty());
    }
}

/// The first 24 items are the legacy slots, ids and kinds as reserved.
pub open spec fn keeps_legacy(items: Seq<ItemModel>) -> bool {
    &&& items.len() >= 24
    &&& forall|i: int| 0 <= i < 24 ==> #[trigger] items[i].id == legacy_entry(i).0 && items[i].kind == legacy_entry(i).2
}

proof fn lemma_add_defs_keeps(items: Seq<ItemModel>, defs: Seq<ItemDef>)
    requires
        keeps_legacy(items),
    ensures
        keeps_legacy(add_defs(items, defs)),
    decreases defs.len(),
{
    if defs.len() > 0 {
        lemma_add_defs_keeps(items, defs.drop_last());
        let before = add_defs(items, defs.drop_last());
        let after = add_defs(items, defs);
        assert forall|i: int| 0 <= i < 24 implies #[trigger] after[i].id == legacy_entry(i).0 && after[i].kind
            == legacy_entry(i).2 by {
            assert(before[i].id == legacy_entry(i).0);
        }
    }
}

proof fn lemma_resolve_keeps(items: Seq<ItemModel>, ids: Seq<Seq<char>>)
    requires
        keeps_legacy(items),
    ensures
        keeps_legacy(resolve_ids(items, ids).0),
    decreases ids.len(),
{
    if ids.len() > 0 {
        lemma_resolve_keeps(items, ids.drop_last());
        let before = resolve_ids(items, ids.drop_last()).0;
        let after = resolve_ids(items, ids).0;
        assert forall|i: int| 0 <= i < 24 implies #[trigger] after[i].id == legacy_entry(i).0 && after[i].kind
            == legacy_entry(i).2 by {
            assert(before[i].id == legacy_entry(i).0);
        }
    }
}

proof fn lemma_recipes_keep(st: Interned, es: Seq<RecipeEntry>, machines: Seq<Seq<char>>)
    requires
        keeps_legacy(st.0),
    ensures
        keeps_legacy(add_recipe_entries(st, es, machines).0),
    decreases es.len(),
{
    if es.len() > 0 {
        lemma_recipes_keep(st, es.drop_last(), machines);
        let mid = add_recipe_entries(st, es.drop_last(), machines);
        let e = es.last();
        if !has_recipe_id(mid.1, e.id@) {
            let (i1, _) = resolve_ids(mid.0, texts(e.inputs@));
            let (i2, _) = resolve_ids(i1, texts(e.outputs@));
            lemma_resolve_keeps(mid.0, texts(e.inputs@));
            lemma_resolve_keeps(i1, texts(e.outputs@));
            lemma_resolve_keeps(i2, texts(e.waste@));
        }
    }
}

/// The legacy item slots survive interning: whatever a pack holds, items
/// 0 to 23 keep the legacy ids and kinds in slot order, so saves and the
/// network protocol can name them by number.
pub proof fn lemma_legacy_slots_stable(p: ContentPack)
    ensures
        keeps_legacy(pack_interned(p).0),
{
    assert(keeps_legacy(legacy_models()));
    lemma_add_defs_keeps(legacy_models(), p.items@ + p.fluids@);
    lemma_recipes_keep(
        (add_defs(legacy_models(), p.items@ + p.fluids@), Seq::empty()),
        p.recipes@,
        dedup(texts(p.machines@)),
    );
}

proof fn lemma_add_defs_concat(items: Seq<ItemModel>, a: Seq<ItemDef>, b: Seq<ItemDef>)
    ensures
        add_defs(add_defs(items, a), b) == add_defs(items, a + b),
    decreases b.len(),
{
    if b.len() == 0 {
        assert(a + b =~= a);
    } else {
        lemma_add_defs_concat(items, a, b.drop_last());
        assert((a + b).drop_last() =~= a + b.drop_last());
        assert((a + b).last() == b.last());
    }
}

impl ContentRegistry {
    fn has_tech(&self, id: &str) -> (r: bool)
        ensures
            r == tech_ids(self.techs@).contains(id@),
    {
        let found = self.tech_by_str(id);
        proof {
            let ts = tech_ids(self.techs@);
            if ts.contains(id@) {
                let c = choose|c: int| 0 <= c < ts.len() && ts[c] == id@;
                assert(self.techs[c].id@ == id@);
            }
            if self.has_tech_id(id@) {
                let c = choose|c: int| 0 <= c < self.techs.len() && self.techs[c].id@ == id@;
                assert(ts[c] == id@);
            }
        }
        found.is_some()
    }

    /// Append the validation messages for one recipe.
    fn push_recipe_issues(&self, errs: &mut Vec<String>, r: &RuntimeRecipe)
        ensures
            texts(final(errs)@) == texts(old(errs)@) + recipe_issues(
                *r,
                self.items.len() as nat,
                tech_ids(self.techs@),
            ),
    {
        let ghost tids = tech_ids(self.techs@);
        let n = self.items.len();
        let ghost before = texts(errs@);
        if r.machine_idx.is_none() && !r.machine.as_str().is_empty() {
            let mut m = String::from_str("recipe ");
            push_str(&mut m, r.id.as_str());
            push_str(&mut m, " missing machine ");
            push_str(&mut m, r.machine.as_str());
            errs.push(m);
        }
        let ghost mid1 = texts(errs@);
        if !r.technology_unlock.as_str().is_empty() && !self.has_tech(r.technology_unlock.as_str()) {
            let mut m = String::from_str("recipe ");
            push_str(&mut m, r.id.as_str());
            push_str(&mut m, " tech unlock ");
            push_str(&mut m, r.technology_unlock.as_str());
            push_str(&mut m, " not in pack");
            errs.push(m);
        }
        let ghost mid2 = texts(errs@);
        push_bad_refs(errs, r.id.as_str(), &r.inputs, n);
        push_bad_refs(errs, r.id.as_str(), &r.outputs, n);
        push_bad_refs(errs, r.id.as_str(), &r.waste, n);
        proof {
            lemma_bad_refs_concat(r.id@, r.inputs@, r.outputs@, n as nat);
            lemma_bad_refs_concat(r.id@, r.inputs@ + r.outputs@, r.waste@, n as nat);
            let first = if r.machine_idx is None && r.machine@.len() > 0 {
                seq!["recipe "@ + r.id@ + " missing machine "@ + r.machine@]
            } else {
                Seq::<Seq<char>>::empty()
            };
            let second = if r.technology_unlock@.len() > 0 && !tids.contains(r.technology_unlock@) {
                seq!["recipe "@ + r.id@ + " tech unlock "@ + r.technology_unlock@ + " not in pack"@]
            } else {
                Seq::<Seq<char>>::empty()
            };
            assert(mid1 =~= before + first);
            assert(mid2 =~= before + first + second);
            assert(texts(errs@) =~= before + (first + second + bad_refs(
                r.id@,
                r.inputs@ + r.outputs@ + r.waste@,
                n as nat,
            )));
        }
    }

    /// Replace the validation messages with those for the current tables.
    fn validate(&mut self)
        ensures
            texts(final(self).validation_errors@) == registry_issues(old(self)),
            final(self).items == old(self).items,
            final(self).recipes == old(self).recipes,
            final(self).machine_ids == old(self).machine_ids,
            final(self).techs == old(self).techs,
            final(self).stats == old(self).stats,
    {
        let ghost tids = tech_ids(self.techs@);
        let n = self.items.len();
        let mut errs: Vec<String> = Vec::new();
        let mut i: usize = 0;
        while i < self.recipes.len()
            invariant
                i <= self.recipes.len(),
                n == self.items.len(),
                tids == tech_ids(self.techs@),
                texts(errs@) == recipes_issues(self.recipes@.take(i as int), n as nat, tids),
            decreases self.recipes.len() - i,
        {
            let r = &self.recipes[i];
            proof {
                assert(self.recipes@.take(i + 1).drop_last() =~= self.recipes@.take(i as int));
                assert(self.recipes@.take(i + 1).last() == *r);
            }
            self.push_recipe_issues(&mut errs, r);
            i += 1;
        }
        assert(self.recipes@.take(self.recipes.len() as int) =~= self.recipes@);
        let ghost recipe_part = texts(errs@);
        let mut t: usize = 0;
        while t < self.techs.len()
            invariant
                t <= self.techs.len(),
                tids == tech_ids(self.techs@),
                texts(errs@) == recipe_part + techs_issues(self.techs@.take(t as int), tids),
            decreases self.techs.len() - t,
        {
            let tech = &self.techs[t];
            proof {
                assert(self.techs@.take(t + 1).drop_last() =~= self.techs@.take(t as int));
                assert(self.techs@.take(t + 1).last() == *tech);
            }
            let ghost before = texts(errs@);
            let ghost ps = texts(tech.prerequisites@);
            let mut q: usize = 0;
            while q < tech.prerequisites.len()
                invariant
                    q <= tech.prerequisites.len(),
                    ps == texts(tech.prerequisites@),
                    tids == tech_ids(self.techs@),
                    texts(errs@) == before + missing_prereqs(tech.id@, ps.take(q as int), tids),
                decreases tech.prerequisites.len() - q,
            {
                proof {
                    assert(ps.take(q + 1).drop_last() =~= ps.take(q as int));
                    assert(ps.take(q + 1).last() == tech.prerequisites@[q as int]@);
                }
                let ghost b2 = texts(errs@);
                if !self.has_tech(tech.prerequisites[q].as_str()) {
                    let mut m = String::from_str("tech ");
                    push_str(&mut m, tech.id.as_str());
                    push_str(&mut m, " missing prereq ");
                    push_str(&mut m, tech.prerequisites[q].as_str());
                    errs.push(m);
                    proof {
                        assert(texts(errs@) =~= b2 + seq![m@]);
                    }
                } else {
                    assert(texts(errs@) =~= b2 + Seq::<Seq<char>>::empty());
                }
                q += 1;
            }
            assert(ps.take(tech.prerequisites.len() as int) =~= ps);
            assert(texts(errs@) =~= recipe_part + (techs_issues(self.techs@.take(t as int), tids) + missing_prereqs(
                tech.id@,
                ps,
                tids,
            )));
            t += 1;
        }
        assert(self.techs@.take(self.techs.len() as int) =~= self.techs@);
        self.validation_errors = errs;
    }

    /// Intern a machine id unless it is already there; reports whether it was new.
    fn add_machine(&mut self, id: &String) -> (kept: bool)
        requires
            old(self).wf(),
            old(self).machine_ids.len() < u16::MAX,
        ensures
            final(self).wf(),
            kept == !texts(old(self).machine_ids@).contains(id@),
            final(self).machine_ids.len() == old(self).machine_ids.len() + if kept { 1int } else { 0int },
            texts(final(self).machine_ids@) == if kept {
                texts(old(self).machine_ids@).push(id@)
            } else {
                texts(old(self).machine_ids@)
            },
            final(self).items == old(self).items,
            final(self).recipes == old(self).recipes,
            final(self).techs == old(self).techs,
            final(self).stats == old(self).stats,
            final(self).validation_errors == old(self).validation_errors,
    {
        let ghost ms = texts(self.machine_ids@);
        match self.machine_index(id.as_str()) {
            Some(k) => {
                assert(ms[k as int] == id@);
                false
            },
            None => {
                assert(!ms.contains(id@)) by {
                    if ms.contains(id@) {
                        let c = choose|c: int| 0 <= c < ms.len() && ms[c] == id@;
                        assert(self.machine_ids[c]@ == id@);
                    }
                }
                let ghost before = self.machine_ids@;
                self.machine_ids.push(id.clone());
                proof {
                    assert(texts(self.machine_ids@) =~= ms.push(id@));
                    assert forall|a: int, b: int| 0 <= a < b < self.machine_ids.len() implies self.machine_ids[a]@
                        != self.machine_ids[b]@ by {
                        if b == self.machine_ids.len() - 1 {
                            assert(ms[a] == before[a]@);
                        }
                    }
                }
                true
            },
        }
    }

    /// Intern a technology unless its id is taken; reports whether it was new.
    fn add_tech(&mut self, def: &TechDef) -> (kept: bool)
        requires
            old(self).wf(),
            old(self).techs.len() < u16::MAX,
        ensures
            final(self).wf(),
            kept == !tech_ids(old(self).techs@).contains(def.id@),
            kept ==> final(self).techs.len() == old(self).techs.len() + 1 && tech_matches(
                final(self).techs@.last(),
                *def,
                old(self).techs.len() as int,
            ) && final(self).techs@.drop_last() == old(self).techs@,
            !kept ==> final(self).techs == old(self).techs,
            final(self).items == old(self).items,
            final(self).recipes == old(self).recipes,
            final(self).machine_ids == old(self).machine_ids,
            final(self).stats == old(self).stats,
            final(self).validation_errors == old(self).validation_errors,
    {
        let ghost ts = tech_ids(self.techs@);
        match self.tech_by_str(def.id.as_str()) {
            Some(t) => {
                let ghost i = choose|i: int| 0 <= i < self.techs.len() && self.techs[i] == *t;
                assert(ts[i] == def.id@);
                false
            },
            None => {
                assert(!ts.contains(def.id@)) by {
                    if ts.contains(def.id@) {
                        let c = choose|c: int| 0 <= c < ts.len() && ts[c] == def.id@;
                        assert(self.techs[c].id@ == def.id@);
                    }
                }
                let t = RuntimeTech {
                    id: def.id.clone(),
                    name: def.name.clone(),
                    tier: def.tier,
                    era: def.era,
                    description: def.description.clone(),
                    purpose: def.purpose.clone(),
                    science_cost: def.science_cost.clone(),
                    prerequisites: def.prerequisites.clone(),
                    unlocks: def.unlocks.clone(),
                    index: self.techs.len() as u16,
                };
                proof {
                    assert(texts(t.prerequisites@) =~= texts(def.prerequisites@));
                    assert(texts(t.unlocks@) =~= texts(def.unlocks@));
                }
                let ghost before = self.techs@;
                self.techs.push(t);
                proof {
                    assert(self.techs@.drop_last() =~= before);
                    assert forall|a: int, b: int| 0 <= a < b < self.techs.len() implies self.techs[a].id@
                        != self.techs[b].id@ by {
                        if b == self.techs.len() - 1 {
                            assert(ts[a] == before[a].id@);
                        }
                    }
                }
                true
            },
        }
    }

    fn push_item(&mut self, item: RuntimeItem)
        requires
            old(self).wf(),
            old(self).items.len() < u16::MAX,
            !has_id(items_model(old(self).items@), item.id@),
        ensures
            final(self).wf(),
            items_model(final(self).items@) == items_model(old(self).items@).push(item_model(item)),
            final(self).items.len() == old(self).items.len() + 1,
            same_but_items(old(self), final(self)),
    {
        let mut item = item;
        item.index = self.items.len() as u16;
        let ghost before = self.items@;
        self.items.push(item);
        proof {
            assert forall|k: int| 0 <= k < before.len() implies before[k].id@ != item.id@ by {
                assert(items_model(before)[k].id == before[k].id@);
            }
            assert(items_model(self.items@) =~= items_model(before).push(item_model(item)));
        }
    }

    /// Reserve the legacy slots, in slot order.
    fn add_legacy_items(&mut self)
        requires
            old(self).wf(),
            old(self).items.len() == 0,
        ensures
            final(self).wf(),
            items_model(final(self).items@) == legacy_models(),
            final(self).items.len() == LEGACY_SLOTS,
            same_but_items(old(self), final(self)),
    {
        proof {
            lemma_legacy_ids_distinct();
        }
        let ghost start = *self;
        let mut i: usize = 0;
        while i < LEGACY_SLOTS
            invariant
                self.wf(),
                i <= LEGACY_SLOTS,
                self.items.len() == i,
                items_model(self.items@) =~= legacy_models().take(i as int),
                same_but_items(&start, self),
                forall|a: int, b: int| 0 <= a < b < 24 ==> #[trigger] legacy_entry(a).0 != #[trigger] legacy_entry(b).0,
            decreases LEGACY_SLOTS - i,
        {
            let (id, name, kind) = legacy_alias(i);
            let plain = match kind {
                ItemKind::Item | ItemKind::Waste => true,
                _ => false,
            };
            let purity = plain && (str_contains(id, "raw_") || str_contains(id, "material_") || str_contains(
                id,
                "waste_",
            ));
            let grade = str_contains(id, "material_") || str_contains(id, "military_");
            let item = RuntimeItem {
                id: String::from_str(id),
                name: String::from_str(name),
                kind,
                era: 1,
                category: String::from_str("legacy"),
                description: String::new(),
                state: None,
                stack_size: 200,
                purity_supported: purity,
                grade_supported: grade,
                family: String::from_str("legacy"),
                index: 0,
            };
            proof {
                assert forall|k: int| 0 <= k < self.items.len() implies items_model(self.items@)[k].id != id@ by {
                    assert(items_model(self.items@)[k] == legacy_model(k));
                    assert(legacy_entry(k).0 != legacy_entry(i as int).0);
                }
            }
            self.push_item(item);
            proof {
                assert(item_model(item) == legacy_model(i as int));
                assert(legacy_models().take(i + 1) =~= legacy_models().take(i as int).push(legacy_model(i as int)));
            }
            i += 1;
        }
        assert(legacy_models().take(24) =~= legacy_models());
    }

    /// Intern one pack item or fluid, or refresh the item already under its id.
    fn add_item_def(&mut self, def: &ItemDef)
        requires
            old(self).wf(),
            old(self).items.len() < u16::MAX,
        ensures
            final(self).wf(),
            items_model(final(self).items@) == add_def(items_model(old(self).items@), *def),
            old(self).items.len() <= final(self).items.len() <= old(self).items.len() + 1,
            same_but_items(old(self), final(self)),
    {
        let ghost m = items_model(self.items@);
        proof {
            assert(self.has_item_id(def.id@) <==> has_id(m, def.id@)) by {
                if has_id(m, def.id@) {
                    let k = choose|k: int| 0 <= k < m.len() && m[k].id == def.id@;
                    assert(self.items[k].id@ == def.id@);
                }
                if self.has_item_id(def.id@) {
                    let k = choose|k: int| 0 <= k < self.items.len() && self.items[k].id@ == def.id@;
                    assert(m[k].id == def.id@);
                }
            }
        }
        match self.item_index(def.id.as_str()) {
            Some(k) => {
                let ku = k as usize;
                proof {
                    let c = id_pos(m, def.id@);
                    assert(m[ku as int].id == def.id@);
                    assert(0 <= c < m.len() && m[c].id == def.id@);
                    assert(self.items[c].id@ == self.items[ku as int].id@);
                    assert(c == ku);
                }
                let name = if def.name.as_str().is_empty() {
                    self.items[ku].name.clone()
                } else {
                    def.name.clone()
                };
                let state = match &def.state {
                    Some(s) => Some(s.clone()),
                    None => None,
                };
                let updated = RuntimeItem {
                    id: self.items[ku].id.clone(),
                    name,
                    kind: self.items[ku].kind,
                    era: def.era,
                    category: def.category.clone(),
                    description: def.description.clone(),
                    state,
                    stack_size: def.stack_size,
                    purity_supported: def.purity_supported,
                    grade_supported: def.grade_supported,
                    family: def.family.clone(),
                    index: self.items[ku].index,
                };
                proof {
                    assert(item_model(updated) == def_update(m[ku as int], *def));
                }
                let ghost before = self.items@;
                self.items.set(ku, updated);
                proof {
                    assert(items_model(self.items@) =~= m.update(ku as int, def_update(m[ku as int], *def)));
                    assert forall|i: int, j: int| 0 <= i < j < self.items.len() implies self.items[i].id@
                        != self.items[j].id@ by {
                        assert(self.items[i].id@ == before[i].id@);
                        assert(self.items[j].id@ == before[j].id@);
                    }
                }
            },
            None => {
                let state = match &def.state {
                    Some(s) => Some(s.clone()),
                    None => None,
                };
                let item = RuntimeItem {
                    id: def.id.clone(),
                    name: def.name.clone(),
                    kind: ItemKind::from_str(def.kind.as_str()),
                    era: def.era,
                    category: def.category.clone(),
                    description: def.description.clone(),
                    state,
                    stack_size: def.stack_size,
                    purity_supported: def.purity_supported,
                    grade_supported: def.grade_supported,
                    family: def.family.clone(),
                    index: 0,
                };
                self.push_item(item);
            },
        }
    }

    /// Index of an item id, interning an `auto` stub when the pack never
    /// declared it.
    fn ensure_item(&mut self, id: &str) -> (r: u16)
        requires
            old(self).wf(),
            old(self).items.len() < u16::MAX,
        ensures
            final(self).wf(),
            (items_model(final(self).items@), r as int) == ensure_id(items_model(old(self).items@), id@),
            old(self).items.len() <= final(self).items.len() <= old(self).items.len() + 1,
            (r as int) < final(self).items.len(),
            same_but_items(old(self), final(self)),
    {
        let ghost m = items_model(self.items@);
        proof {
            assert(self.has_item_id(id@) <==> has_id(m, id@)) by {
                if has_id(m, id@) {
                    let k = choose|k: int| 0 <= k < m.len() && m[k].id == id@;
                    assert(self.items[k].id@ == id@);
                }
                if self.has_item_id(id@) {
                    let k = choose|k: int| 0 <= k < self.items.len() && self.items[k].id@ == id@;
                    assert(m[k].id == id@);
                }
            }
        }
        match self.item_index(id) {
            Some(k) => {
                proof {
                    let c = id_pos(m, id@);
                    assert(m[k as int].id == id@);
                    assert(0 <= c < m.len() && m[c].id == id@);
                    assert(self.items[c].id@ == self.items[k as int].id@);
                    assert(c == k);
                }
                k
            },
            None => {
                let kind = if str_starts_with(id, "era1_fluid_") {
                    ItemKind::Fluid
                } else if str_starts_with(id, "era1_gas_") {
                    ItemKind::Gas
                } else if str_starts_with(id, "era1_waste_") {
                    ItemKind::Waste
                } else {
                    ItemKind::Item
                };
                let k = self.items.len() as u16;
                let item = RuntimeItem {
                    id: String::from_str(id),
                    name: last_segment_of(id),
                    kind,
                    era: 1,
                    category: String::from_str("auto"),
                    description: String::new(),
                    state: None,
                    stack_size: 100,
                    purity_supported: true,
                    grade_supported: false,
                    family: String::from_str("auto"),
                    index: 0,
                };
                proof {
                    assert(item_model(item) == stub_model(id@));
                }
                self.push_item(item);
                k
            },
        }
    }

    /// Indices of a recipe's item ids, interning stubs as needed.
    fn resolve_ios(&mut self, ids: &Vec<String>) -> (r: Vec<u16>)
        requires
            old(self).wf(),
            old(self).items.len() + ids.len() <= u16::MAX,
        ensures
            final(self).wf(),
            (items_model(final(self).items@), r@) == resolve_ids(items_model(old(self).items@), texts(ids@)),
            old(self).items.len() <= final(self).items.len() <= old(self).items.len() + ids.len(),
            forall|j: int| 0 <= j < r.len() ==> (#[trigger] r@[j] as int) < final(self).items.len(),
            same_but_items(old(self), final(self)),
    {
        let ghost start = *self;
        let ghost all = texts(ids@);
        let mut out: Vec<u16> = Vec::new();
        let mut k: usize = 0;
        while k < ids.len()
            invariant
                self.wf(),
                k <= ids.len(),
                start.items.len() + ids.len() <= u16::MAX,
                start.items.len() <= self.items.len() <= start.items.len() + k,
                out.len() == k,
                forall|j: int| 0 <= j < out.len() ==> (#[trigger] out@[j] as int) < self.items.len(),
                all == texts(ids@),
                (items_model(self.items@), out@) == resolve_ids(items_model(start.items@), all.take(k as int)),
                same_but_items(&start, self),
            decreases ids.len() - k,
        {
            let ghost before = items_model(self.items@);
            proof {
                assert(all.take(k + 1).drop_last() =~= all.take(k as int));
                assert(all.take(k + 1).last() == ids@[k as int]@);
            }
            let idx = self.ensure_item(ids[k].as_str());
            out.push(idx);
            k += 1;
        }
        assert(all.take(ids.len() as int) =~= all);
        out
    }

    /// Intern a recipe entry unless its id is taken; reports whether it was.
    fn add_recipe(&mut self, e: &RecipeEntry) -> (kept: bool)
        requires
            old(self).wf(),
            old(self).recipes.len() + 1 < u16::MAX,
            old(self).items.len() + io_count(*e) <= u16::MAX,
            refs_in_range(old(self)),
        ensures
            final(self).wf(),
            refs_in_range(final(self)),
            old(self).items.len() <= final(self).items.len(),
            (items_model(final(self).items@), recipes_model(final(self).recipes@)) == add_recipe_entry(
                (items_model(old(self).items@), recipes_model(old(self).recipes@)),
                *e,
                texts(old(self).machine_ids@),
            ),
            kept == !has_recipe_id(recipes_model(old(self).recipes@), e.id@),
            final(self).items.len() <= old(self).items.len() + io_count(*e),
            final(self).machine_ids == old(self).machine_ids,
            final(self).techs == old(self).techs,
            final(self).stats == old(self).stats,
            final(self).validation_errors == old(self).validation_errors,
    {
        let ghost rm = recipes_model(self.recipes@);
        let mut i: usize = 0;
        while i < self.recipes.len()
            invariant
                self.wf(),
                refs_in_range(self),
                i <= self.recipes.len(),
                rm == recipes_model(self.recipes@),
                forall|j: int| 0 <= j < i ==> self.recipes[j].id@ != e.id@,
            decreases self.recipes.len() - i,
        {
            if str_eq(self.recipes[i].id.as_str(), e.id.as_str()) {
                assert(rm[i as int].id == e.id@);
                return false;
            }
            i += 1;
        }
        proof {
            assert(!has_recipe_id(rm, e.id@)) by {
                if has_recipe_id(rm, e.id@) {
                    let k = choose|k: int| 0 <= k < rm.len() && rm[k].id == e.id@;
                    assert(self.recipes[k].id@ == e.id@);
                }
            }
        }
        let ghost m0 = items_model(self.items@);
        let inputs = self.resolve_ios(&e.inputs);
        let outputs = self.resolve_ios(&e.outputs);
        let waste = self.resolve_ios(&e.waste);
        let ghost machines = texts(self.machine_ids@);
        let machine_idx = self.machine_index(e.machine.as_str());
        proof {
            match machine_idx {
                Some(k) => {
                    assert(machines[k as int] == e.machine@);
                    let c = machines.index_of(e.machine@);
                    assert(0 <= c < machines.len() && machines[c] == e.machine@);
                    assert(self.machine_ids[c]@ == self.machine_ids[k as int]@);
                    assert(c == k);
                },
                None => {
                    assert(!machines.contains(e.machine@)) by {
                        if machines.contains(e.machine@) {
                            let c = choose|c: int| 0 <= c < machines.len() && machines[c] == e.machine@;
                            assert(self.machine_ids[c]@ == e.machine@);
                        }
                    }
                },
            }
        }
        let index = (self.recipes.len() as u16) + 1;
        let mut unlock = if e.technology_unlock.as_str().is_empty() {
            String::from_str("era1_tech_basic_recovery")
        } else {
            e.technology_unlock.clone()
        };
        if str_eq(unlock.as_str(), "era1_tech_waste_management") {
            unlock = String::from_str("era1_tech_waste_recovery");
        }
        let extracts = match &e.extracts {
            Some(x) => Some(x.clone()),
            None => None,
        };
        let rt = RuntimeRecipe {
            id: e.id.clone(),
            name: e.name.clone(),
            category: e.category.clone(),
            description: e.description.clone(),
            machine: e.machine.clone(),
            machine_idx,
            inputs,
            outputs,
            waste,
            technology_unlock: unlock,
            extracts,
            index,
        };
        let ghost before = self.recipes@;
        self.recipes.push(rt);
        proof {
            assert(recipes_model(self.recipes@) =~= rm.push(recipe_model(rt)));
            assert forall|k: int| 0 <= k < self.recipes.len() implies {
                let r = #[trigger] self.recipes[k];
                &&& forall|j: int| 0 <= j < r.inputs.len() ==> (#[trigger] r.inputs@[j] as int) < self.items.len()
                &&& forall|j: int| 0 <= j < r.outputs.len() ==> (#[trigger] r.outputs@[j] as int) < self.items.len()
                &&& forall|j: int| 0 <= j < r.waste.len() ==> (#[trigger] r.waste@[j] as int) < self.items.len()
            } by {
                if k < before.len() {
                    assert(self.recipes[k] == before[k]);
                }
            }
            assert forall|a: int, b: int| 0 <= a < b < self.recipes.len() implies self.recipes[a].id@
                != self.recipes[b].id@ by {
                if b == self.recipes.len() - 1 {
                    assert(self.recipes[a].id@ == before[a].id@);
                }
            }
        }
        true
    }
    /// Intern a list of pack items (or fluids) in order.
    fn add_item_defs(&mut self, defs: &Vec<ItemDef>)
        requires
            old(self).wf(),
            old(self).items.len() + defs.len() < u16::MAX,
        ensures
            final(self).wf(),
            items_model(final(self).items@) == add_defs(items_model(old(self).items@), defs@),
            old(self).items.len() <= final(self).items.len() <= old(self).items.len() + defs.len(),
            same_but_items(old(self), final(self)),
    {
        let ghost start = *self;
        let mut i: usize = 0;
        while i < defs.len()
            invariant
                self.wf(),
                i <= defs.len(),
                start.items.len() + defs.len() < u16::MAX,
                start.items.len() <= self.items.len() <= start.items.len() + i,
                items_model(self.items@) == add_defs(items_model(start.items@), defs@.take(i as int)),
                same_but_items(&start, self),
            decreases defs.len() - i,
        {
            proof {
                assert(defs@.take(i + 1).drop_last() =~= defs@.take(i as int));
                assert(defs@.take(i + 1).last() == defs@[i as int]);
            }
            self.add_item_def(&defs[i]);
            i += 1;
        }
        assert(defs@.take(defs.len() as int) =~= defs@);
    }

    /// Intern the machine ids in order, each id once.
    fn add_machines(&mut self, ids: &Vec<String>) -> (order: Vec<usize>)
        requires
            old(self).wf(),
            old(self).machine_ids.len() == 0,
            ids.len() < u16::MAX,
        ensures
            final(self).wf(),
            texts(final(self).machine_ids@) == dedup(texts(ids@)),
            positions(order@) == first_positions(texts(ids@)),
            final(self).items == old(self).items,
            final(self).recipes == old(self).recipes,
            final(self).techs == old(self).techs,
            final(self).stats == old(self).stats,
            final(self).validation_errors == old(self).validation_errors,
    {
        let ghost start = *self;
        let ghost all = texts(ids@);
        let mut order: Vec<usize> = Vec::new();
        let mut i: usize = 0;
        proof {
            assert(texts(self.machine_ids@) =~= dedup(all.take(0)));
            assert(positions(order@) =~= first_positions(all.take(0)));
        }
        while i < ids.len()
            invariant
                self.wf(),
                i <= ids.len(),
                ids.len() < u16::MAX,
                all == texts(ids@),
                self.machine_ids.len() <= i,
                texts(self.machine_ids@) == dedup(all.take(i as int)),
                positions(order@) == first_positions(all.take(i as int)),
                self.items == start.items,
                self.recipes == start.recipes,
                self.techs == start.techs,
                self.stats == start.stats,
                self.validation_errors == start.validation_errors,
            decreases ids.len() - i,
        {
            proof {
                lemma_texts_take(ids@, i as int);
                lemma_dedup_contains(all.take(i as int), ids@[i as int]@);
                lemma_dedup_push(all.take(i as int), ids@[i as int]@);
                assert(all.take(i + 1) =~= all.take(i as int).push(ids@[i as int]@));
            }
            let ghost before = positions(order@);
            let kept = self.add_machine(&ids[i]);
            if kept {
                order.push(i);
                assert(positions(order@) =~= before.push(i as int));
            }
            i += 1;
        }
        assert(all.take(ids.len() as int) =~= all);
        order
    }

    /// Intern the recipe entries in order, each id once.
    fn add_recipes(&mut self, es: &Vec<RecipeEntry>) -> (order: Vec<usize>)
        requires
            old(self).wf(),
            old(self).recipes.len() == 0,
            refs_in_range(old(self)),
            old(self).items.len() + total_io(es@) <= u16::MAX,
            es.len() + 1 < u16::MAX,
        ensures
            final(self).wf(),
            refs_in_range(final(self)),
            (items_model(final(self).items@), recipes_model(final(self).recipes@)) == add_recipe_entries(
                (items_model(old(self).items@), Seq::empty()),
                es@,
                texts(old(self).machine_ids@),
            ),
            positions(order@) == first_positions(recipe_entry_ids(es@)),
            final(self).machine_ids == old(self).machine_ids,
            final(self).techs == old(self).techs,
            final(self).stats == old(self).stats,
            final(self).validation_errors == old(self).validation_errors,
    {
        let ghost start = *self;
        let ghost machines = texts(self.machine_ids@);
        let ghost ids = recipe_entry_ids(es@);
        let mut order: Vec<usize> = Vec::new();
        let mut i: usize = 0;
        proof {
            assert(recipes_model(self.recipes@) =~= Seq::<RecipeModel>::empty());
            assert(es@.take(0) =~= Seq::<RecipeEntry>::empty());
            assert(recipe_ids(recipes_model(self.recipes@)) =~= dedup(ids.take(0)));
            assert(positions(order@) =~= first_positions(ids.take(0)));
        }
        while i < es.len()
            invariant
                self.wf(),
                refs_in_range(self),
                i <= es.len(),
                es.len() + 1 < u16::MAX,
                start.items.len() + total_io(es@) <= u16::MAX,
                self.items.len() <= start.items.len() + total_io(es@.take(i as int)),
                self.recipes.len() <= i,
                machines == texts(self.machine_ids@),
                ids == recipe_entry_ids(es@),
                (items_model(self.items@), recipes_model(self.recipes@)) == add_recipe_entries(
                    (items_model(start.items@), Seq::empty()),
                    es@.take(i as int),
                    machines,
                ),
                recipe_ids(recipes_model(self.recipes@)) == dedup(ids.take(i as int)),
                positions(order@) == first_positions(ids.take(i as int)),
                self.machine_ids == start.machine_ids,
                self.techs == start.techs,
                self.stats == start.stats,
                self.validation_errors == start.validation_errors,
            decreases es.len() - i,
        {
            let e = &es[i];
            let ghost rm = recipes_model(self.recipes@);
            proof {
                lemma_total_io_take(es@, i as int);
                lemma_total_io_take(es@, i + 1);
                assert(es@.take(i + 1).drop_last() =~= es@.take(i as int));
                assert(es@.take(i + 1).last() == *e);
                assert(ids.take(i + 1) =~= ids.take(i as int).push(e.id@));
                lemma_dedup_contains(ids.take(i as int), e.id@);
                lemma_dedup_push(ids.take(i as int), e.id@);
                assert(has_recipe_id(rm, e.id@) <==> recipe_ids(rm).contains(e.id@)) by {
                    if has_recipe_id(rm, e.id@) {
                        let k = choose|k: int| 0 <= k < rm.len() && rm[k].id == e.id@;
                        assert(recipe_ids(rm)[k] == e.id@);
                    }
                    if recipe_ids(rm).contains(e.id@) {
                        let k = choose|k: int| 0 <= k < recipe_ids(rm).len() && recipe_ids(rm)[k] == e.id@;
                        assert(rm[k].id == e.id@);
                    }
                }
            }
            let ghost before = positions(order@);
            let kept = self.add_recipe(e);
            proof {
                assert(ids.take(i + 1).drop_last() =~= ids.take(i as int));
                assert(ids.take(i + 1).last() == e.id@);
            }
            if kept {
                order.push(i);
                proof {
                    assert(positions(order@) =~= before.push(i as int));
                    assert(first_positions(ids.take(i + 1)) == first_positions(ids.take(i as int)).push(i as int));
                    assert(recipe_ids(recipes_model(self.recipes@)) =~= recipe_ids(rm).push(e.id@));
                }
            } else {
                assert(first_positions(ids.take(i + 1)) == first_positions(ids.take(i as int)));
            }
            i += 1;
        }
        assert(es@.take(es.len() as int) =~= es@);
        assert(ids.take(es.len() as int) =~= ids);
        order
    }

    /// Intern the technologies in order, each id once.
    fn add_techs(&mut self, ts: &Vec<TechDef>) -> (order: Vec<usize>)
        requires
            old(self).wf(),
            old(self).techs.len() == 0,
            ts.len() < u16::MAX,
        ensures
            final(self).wf(),
            tech_ids(final(self).techs@) == dedup(tech_def_ids(ts@)),
            positions(order@) == first_positions(tech_def_ids(ts@)),
            final(self).techs.len() == order.len(),
            forall|k: int| 0 <= k < order.len() ==> (#[trigger] order@[k] as int) < ts.len(),
            forall|k: int|
                0 <= k < order.len() ==> tech_matches(#[trigger] final(self).techs[k], ts@[order@[k] as int], k),
            final(self).items == old(self).items,
            final(self).recipes == old(self).recipes,
            final(self).machine_ids == old(self).machine_ids,
            final(self).stats == old(self).stats,
            final(self).validation_errors == old(self).validation_errors,
    {
        let ghost start = *self;
        let ghost ids = tech_def_ids(ts@);
        let mut order: Vec<usize> = Vec::new();
        let mut i: usize = 0;
        proof {
            assert(tech_ids(self.techs@) =~= dedup(ids.take(0)));
            assert(positions(order@) =~= first_positions(ids.take(0)));
        }
        while i < ts.len()
            invariant
                self.wf(),
                i <= ts.len(),
                ts.len() < u16::MAX,
                ids == tech_def_ids(ts@),
                self.techs.len() == order.len(),
                order.len() <= i,
                tech_ids(self.techs@) == dedup(ids.take(i as int)),
                positions(order@) == first_positions(ids.take(i as int)),
                forall|k: int| 0 <= k < order.len() ==> (#[trigger] order@[k] as int) < i,
                forall|k: int|
                    0 <= k < order.len() ==> tech_matches(#[trigger] self.techs[k], ts@[order@[k] as int], k),
                self.items == start.items,
                self.recipes == start.recipes,
                self.machine_ids == start.machine_ids,
                self.stats == start.stats,
                self.validation_errors == start.validation_errors,
            decreases ts.len() - i,
        {
            let d = &ts[i];
            proof {
                assert(ids.take(i + 1) =~= ids.take(i as int).push(d.id@));
                assert(ids.take(i + 1).drop_last() =~= ids.take(i as int));
                lemma_dedup_contains(ids.take(i as int), d.id@);
                lemma_dedup_push(ids.take(i as int), d.id@);
            }
            let ghost before = positions(order@);
            let ghost old_order = order@;
            let ghost old_techs = self.techs;
            let kept = self.add_tech(d);
            if kept {
                order.push(i);
                proof {
                    assert(positions(order@) =~= before.push(i as int));
                    assert(first_positions(ids.take(i + 1)) == first_positions(ids.take(i as int)).push(i as int));
                    assert(tech_ids(self.techs@) =~= tech_ids(old_techs@).push(d.id@));
                    assert forall|k: int| 0 <= k < order.len() implies (#[trigger] order@[k] as int) < i + 1 by {
                        if k < order.len() - 1 {
                            assert(order@[k] == old_order[k]);
                        }
                    }
                    assert forall|k: int| 0 <= k < order.len() implies tech_matches(
                        #[trigger] self.techs[k],
                        ts@[order@[k] as int],
                        k,
                    ) by {
                        if k < order.len() - 1 {
                            assert(self.techs@[k] == self.techs@.drop_last()[k]);
                            assert(self.techs[k] == old_techs[k]);
                            assert(order@[k] == old_order[k]);
                        } else {
                            assert(order@[k] == i);
                            assert(self.techs[k] == self.techs@.last());
                        }
                    }
                }
            } else {
                assert(first_positions(ids.take(i + 1)) == first_positions(ids.take(i as int)));
            }
            i += 1;
        }
        assert(ids.take(ts.len() as int) =~= ids);
        order
    }

    /// Table sizes, fluids counted apart from the other items.
    fn count_stats(&self) -> (r: ContentStats)
        ensures
            r == stats_of(self),
    {
        let ghost m = items_model(self.items@);
        let mut f: usize = 0;
        let mut i: usize = 0;
        while i < self.items.len()
            invariant
                i <= self.items.len(),
                m == items_model(self.items@),
                f == fluid_count(m.take(i as int)),
                f <= i,
            decreases self.items.len() - i,
        {
            proof {
                assert(m.take(i + 1).drop_last() =~= m.take(i as int));
                assert(m.take(i + 1).last() == m[i as int]);
            }
            if self.items[i].kind.is_fluid() {
                f += 1;
            }
            i += 1;
        }
        assert(m.take(self.items.len() as int) =~= m);
        ContentStats {
            items: self.items.len() - f,
            fluids: f,
            recipes: self.recipes.len(),
            machines: self.machine_ids.len(),
            technologies: self.techs.len(),
        }
    }

    /// Intern a content pack: the legacy item slots, the pack's items then
    /// fluids, its machines, its recipes (interning an `auto` stub for every
    /// item id a recipe names but the pack never declared), its
    /// technologies; then validate the tables, count them and hold the
    /// counts against the manifest.
    #[verifier::spinoff_prover]
    #[verifier::rlimit(40)]
    pub fn from_pack(pack: &ContentPack) -> (r: (ContentRegistry, PackOrder))
        requires
            pack_fits(*pack),
        ensures
            r.0.wf(),
            items_model(r.0.items@) == pack_interned(*pack).0,
            recipes_model(r.0.recipes@) == pack_interned(*pack).1,
            refs_in_range(&r.0),
            texts(r.0.machine_ids@) == dedup(texts(pack.machines@)),
            positions(r.1.machines@) == first_positions(texts(pack.machines@)),
            positions(r.1.recipes@) == first_positions(recipe_entry_ids(pack.recipes@)),
            positions(r.1.techs@) == first_positions(tech_def_ids(pack.techs@)),
            tech_ids(r.0.techs@) == dedup(tech_def_ids(pack.techs@)),
            r.0.techs.len() == r.1.techs.len(),
            forall|k: int| 0 <= k < r.1.techs.len() ==> (#[trigger] r.1.techs@[k] as int) < pack.techs.len(),
            forall|k: int|
                0 <= k < r.0.techs.len() ==> tech_matches(
                    #[trigger] r.0.techs[k],
                    pack.techs@[r.1.techs@[k] as int],
                    k,
                ),
            r.0.stats == stats_of(&r.0),
            texts(r.0.validation_errors@) == registry_issues(&r.0) + match pack.manifest {
                Some(m) => manifest_issues(m, r.0.stats),
                None => Seq::<Seq<char>>::empty(),
            },
    {
        let mut reg = ContentRegistry {
            items: Vec::new(),
            recipes: Vec::new(),
            machine_ids: Vec::new(),
            techs: Vec::new(),
            stats: ContentStats { items: 0, fluids: 0, recipes: 0, machines: 0, technologies: 0 },
            validation_errors: Vec::new(),
        };
        reg.add_legacy_items();
        reg.add_item_defs(&pack.items);
        reg.add_item_defs(&pack.fluids);
        proof {
            lemma_add_defs_concat(legacy_models(), pack.items@, pack.fluids@);
        }
        let machines = reg.add_machines(&pack.machines);
        let recipes = reg.add_recipes(&pack.recipes);
        let techs = reg.add_techs(&pack.techs);
        reg.validate();
        let stats = reg.count_stats();
        reg.stats = stats;
        let ghost issues = texts(reg.validation_errors@);
        match &pack.manifest {
            Some(m) => {
                let name = m.name.as_str();
                check_count(&mut reg.validation_errors, "items", m.counts.items, stats.items, name);
                check_count(&mut reg.validation_errors, "fluids", m.counts.fluids, stats.fluids, name);
                check_count(&mut reg.validation_errors, "recipes", m.counts.recipes, stats.recipes, name);
                check_count(&mut reg.validation_errors, "machines", m.counts.machines, stats.machines, name);
                check_count(
                    &mut reg.validation_errors,
                    "technologies",
                    m.counts.technologies,
                    stats.technologies,
                    name,
                );
                proof {
                    reveal_strlit("items");
                    assert(texts(reg.validation_errors@) =~= issues + manifest_issues(*m, stats));
                }
            },
            None => {
                assert(texts(reg.validation_errors@) =~= issues + Seq::<Seq<char>>::empty());
            },
        }
        (reg, PackOrder { machines, recipes, techs })
    }
}


/// `item` is a fluid or gas of the table.
pub open spec fn fluid_ref(reg: &ContentRegistry, item: u16) -> bool {
    (item as int) < reg.items.len() && reg.items[item as int].kind.spec_is_fluid()
}

/// A recipe with any input or output that moves a fluid or gas (waste
/// included).
pub open spec fn moves_fluid(reg: &ContentRegistry, r: RuntimeRecipe) -> bool {
    &&& (r.inputs.len() > 0 || r.outputs.len() > 0)
    &&& exists|j: int| 0 <= j < (r.inputs@ + r.outputs@ + r.waste@).len() && fluid_ref(reg, #[trigger] (r.inputs@ + r.outputs@ + r.waste@)[j])
}

/// A machine handles fluids when its entry declares fluid ports or a recipe
/// crafted in it moves a fluid.
pub open spec fn machine_fluids(reg: &ContentRegistry, machine: u16, has_ports: bool) -> bool {
    has_ports || exists|k: int|
        0 <= k < reg.recipes.len() && reg.recipes[k].machine_idx == Some(machine) && moves_fluid(reg, #[trigger] reg.recipes[k])
}

impl ContentRegistry {
    /// Whether any of `refs` is a fluid or gas.
    fn any_fluid(&self, refs: &Vec<u16>) -> (r: bool)
        ensures
            r == exists|j: int| 0 <= j < refs.len() && fluid_ref(self, #[trigger] refs@[j]),
    {
        let mut j: usize = 0;
        while j < refs.len()
            invariant
                j <= refs.len(),
                forall|q: int| 0 <= q < j ==> !fluid_ref(self, #[trigger] refs@[q]),
            decreases refs.len() - j,
        {
            if self.is_fluid(Item(refs[j])) {
                assert(fluid_ref(self, refs@[j as int]));
                return true;
            }
            j += 1;
        }
        false
    }

    /// Whether machine `machine` handles fluids: declared fluid ports
    /// (`has_ports`), or a recipe crafted in it with any input or output
    /// that moves a fluid or gas.
    pub fn machine_uses_fluids(&self, machine: u16, has_ports: bool) -> (r: bool)
        ensures
            r == machine_fluids(self, machine, has_ports),
    {
        if has_ports {
            return true;
        }
        let mut k: usize = 0;
        while k < self.recipes.len()
            invariant
                k <= self.recipes.len(),
                !has_ports,
                forall|q: int|
                    0 <= q < k ==> !(self.recipes[q].machine_idx == Some(machine) && moves_fluid(
                        self,
                        #[trigger] self.recipes[q],
                    )),
            decreases self.recipes.len() - k,
        {
            let r = &self.recipes[k];
            let here = match r.machine_idx {
                Some(m) => m == machine,
                None => false,
            };
            if here && (r.inputs.len() > 0 || r.outputs.len() > 0) {
                let a = self.any_fluid(&r.inputs);
                let b = self.any_fluid(&r.outputs);
                let c = self.any_fluid(&r.waste);
                let ghost all = r.inputs@ + r.outputs@ + r.waste@;
                proof {
                    assert forall|j: int| 0 <= j < all.len() implies #[trigger] all[j] == if j < r.inputs.len() {
                        r.inputs@[j]
                    } else if j < r.inputs.len() + r.outputs.len() {
                        r.outputs@[j - r.inputs.len()]
                    } else {
                        r.waste@[j - r.inputs.len() - r.outputs.len()]
                    } by {}
                    if a {
                        let j = choose|j: int| 0 <= j < r.inputs.len() && fluid_ref(self, #[trigger] r.inputs@[j]);
                        assert(all[j] == r.inputs@[j]);
                    }
                    if b {
                        let j = choose|j: int| 0 <= j < r.outputs.len() && fluid_ref(self, #[trigger] r.outputs@[j]);
                        assert(all[r.inputs.len() + j] == r.outputs@[j]);
                    }
                    if c {
                        let j = choose|j: int| 0 <= j < r.waste.len() && fluid_ref(self, #[trigger] r.waste@[j]);
                        assert(all[r.inputs.len() + r.outputs.len() + j] == r.waste@[j]);
                    }
                    if moves_fluid(self, *r) {
                        let j = choose|j: int| 0 <= j < all.len() && fluid_ref(self, #[trigger] all[j]);
                        if j < r.inputs.len() {
                            assert(fluid_ref(self, r.inputs@[j]));
                        } else if j < r.inputs.len() + r.outputs.len() {
                            assert(fluid_ref(self, r.outputs@[j - r.inputs.len()]));
                        } else {
                            assert(fluid_ref(self, r.waste@[j - r.inputs.len() - r.outputs.len()]));
                        }
                    }
                }
                if a || b || c {
                    assert(self.recipes[k as int].machine_idx == Some(machine));
                    return true;
                }
            }
            k += 1;
        }
        false
    }
}

} // verus!
