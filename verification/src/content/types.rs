//! Pack definitions and their interned runtime forms.

use vstd::prelude::*;
use std::collections::HashMap;

verus! {

/// One entry of `items.json` / `fluids.json`.
#[derive(Clone, Debug)]
pub struct ItemDef {
    pub id: String,
    pub name: String,
    pub era: u8,
    pub family: String,
    pub category: String,
    pub stack_size: u32,
    pub purity_supported: bool,
    pub grade_supported: bool,
    pub description: String,
    pub kind: String,
    pub state: Option<String>,
}

/// Stack size of an item whose pack entry gives none.
pub fn default_stack() -> (r: u32)
    ensures
        r == 100,
{
    100
}

/// Footprint in tiles of a machine whose pack entry gives none.
pub fn default_size() -> (r: [u32; 2])
    ensures
        r@ == seq![3u32, 3u32],
{
    let r = [3u32, 3u32];
    assert(r@ =~= seq![3u32, 3u32]);
    r
}

/// Era of a technology whose pack entry gives none.
pub fn default_era() -> (r: u8)
    ensures
        r == 1,
{
    1
}

/// One entry of `technologies.json`.
#[derive(Clone, Debug)]
pub struct TechDef {
    pub id: String,
    pub name: String,
    pub tier: u8,
    pub era: u8,
    pub description: String,
    pub purpose: String,
    pub science_cost: HashMap<String, u32>,
    pub prerequisites: Vec<String>,
    pub unlocks: Vec<String>,
    pub research_time: String,
}

/// The pack header: era, name and declared content counts.
#[derive(Clone, Debug)]
pub struct Manifest {
    pub era: u8,
    pub name: String,
    pub counts: ManifestCounts,
}

#[derive(Clone, Copy, Debug)]
pub struct ManifestCounts {
    pub items: usize,
    pub fluids: usize,
    pub recipes: usize,
    pub machines: usize,
    pub technologies: usize,
}

#[derive(Clone, Copy, Debug, PartialEq, Eq, Structural)]
pub enum ItemKind {
    Item,
    Fluid,
    Gas,
    Waste,
}

pub open spec fn spec_kind_from_str(s: Seq<char>) -> ItemKind {
    if s == "fluid"@ {
        ItemKind::Fluid
    } else if s == "gas"@ {
        ItemKind::Gas
    } else if s == "waste"@ {
        ItemKind::Waste
    } else {
        ItemKind::Item
    }
}

impl ItemKind {
    pub fn from_str(s: &str) -> (r: Self)
        ensures
            r == spec_kind_from_str(s@),
    {
        if crate::text::str_eq(s, "fluid") {
            ItemKind::Fluid
        } else if crate::text::str_eq(s, "gas") {
            ItemKind::Gas
        } else if crate::text::str_eq(s, "waste") {
            ItemKind::Waste
        } else {
            ItemKind::Item
        }
    }

    pub open spec fn spec_is_fluid(self) -> bool {
        self == ItemKind::Fluid || self == ItemKind::Gas
    }

    /// Fluids and gases travel in pipes; items and waste on belts.
    #[verifier::when_used_as_spec(spec_is_fluid)]
    pub fn is_fluid(self) -> (r: bool)
        ensures
            r == self.spec_is_fluid(),
    {
        match self {
            ItemKind::Fluid | ItemKind::Gas => true,
            _ => false,
        }
    }
}

/// An interned item (legacy slot or pack entry).
#[derive(Clone, Debug)]
pub struct RuntimeItem {
    pub id: String,
    pub name: String,
    pub kind: ItemKind,
    pub era: u8,
    pub category: String,
    pub description: String,
    pub state: Option<String>,
    pub stack_size: u32,
    pub purity_supported: bool,
    pub grade_supported: bool,
    pub family: String,
    pub index: u16,
}

/// An interned recipe as the crafting graph sees it: which item ids go in
/// and come out. Amounts, processing time and power stay with the
/// simulation that runs the crafts.
#[derive(Clone, Debug)]
pub struct RuntimeRecipe {
    pub id: String,
    pub name: String,
    pub category: String,
    pub description: String,
    pub machine: String,
    pub machine_idx: Option<u16>,
    pub inputs: Vec<u16>,
    pub outputs: Vec<u16>,
    pub waste: Vec<u16>,
    pub technology_unlock: String,
    pub extracts: Option<String>,
    /// Dense 1-based recipe index (0 = idle).
    pub index: u16,
}

impl RuntimeRecipe {
    /// Everything the recipe gives: its outputs, then its waste.
    pub fn all_outputs(&self) -> (r: Vec<u16>)
        ensures
            r@ == self.outputs@ + self.waste@,
    {
        let mut r = self.outputs.clone();
        assert(r@ =~= self.outputs@);
        let mut k: usize = 0;
        while k < self.waste.len()
            invariant
                k <= self.waste.len(),
                r@ == self.outputs@ + self.waste@.take(k as int),
            decreases self.waste.len() - k,
        {
            r.push(self.waste[k]);
            assert(self.waste@.take(k + 1) =~= self.waste@.take(k as int).push(self.waste@[k as int]));
            assert(r@ =~= self.outputs@ + self.waste@.take(k + 1));
            k += 1;
        }
        assert(self.waste@.take(self.waste.len() as int) =~= self.waste@);
        r
    }
}

/// An interned technology as the research tree sees it.
#[derive(Clone, Debug)]
pub struct RuntimeTech {
    pub id: String,
    pub name: String,
    pub tier: u8,
    pub era: u8,
    pub description: String,
    pub purpose: String,
    /// Science item key → units needed.
    pub science_cost: HashMap<String, u32>,
    pub prerequisites: Vec<String>,
    pub unlocks: Vec<String>,
    pub index: u16,
}

} // verus!
