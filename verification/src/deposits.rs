//! Resource vents: the five vent kinds, their items, names and tints, and
//! the deterministic seed hash for vent shapes. Vent geometry and yield are
//! floating-point and live with the simulation.

use vstd::prelude::*;
use vstd::wrapping::u32_specs::{wrapping_add, wrapping_mul};
use macroquad::color::Color;
use crate::sim::{Item, COAL, COPPER_ORE, CRUDE_OIL, IRON_ORE, STONE};

verus! {

/// Number of corners of a vent's outline polygon.
pub const VEIN_OUTLINE_VERTS: usize = 40;

/// Patch resources players expand for.
#[derive(Clone, Copy, PartialEq, Eq, Debug, Hash, Structural)]
pub enum ResourceKind {
    Iron,
    Copper,
    Stone,
    Coal,
    Oil,
}

pub open spec fn kind_code(k: ResourceKind) -> u8 {
    match k {
        ResourceKind::Iron => 0,
        ResourceKind::Copper => 1,
        ResourceKind::Stone => 2,
        ResourceKind::Coal => 3,
        ResourceKind::Oil => 4,
    }
}

impl ResourceKind {
    /// Item a drill on this vent produces.
    pub fn item(self) -> (r: Item)
        ensures
            r == Item(
                match self {
                    ResourceKind::Iron => IRON_ORE,
                    ResourceKind::Copper => COPPER_ORE,
                    ResourceKind::Stone => STONE,
                    ResourceKind::Coal => COAL,
                    ResourceKind::Oil => CRUDE_OIL,
                },
            ),
    {
        match self {
            ResourceKind::Iron => Item(IRON_ORE),
            ResourceKind::Copper => Item(COPPER_ORE),
            ResourceKind::Stone => Item(STONE),
            ResourceKind::Coal => Item(COAL),
            ResourceKind::Oil => Item(CRUDE_OIL),
        }
    }

    pub fn label(self) -> (r: &'static str)
        ensures
            r@ == match self {
                ResourceKind::Iron => "Ferrite Gas Vent"@,
                ResourceKind::Copper => "Conductive Gas Vent"@,
                ResourceKind::Stone => "Silicate Gas Vent"@,
                ResourceKind::Coal => "Carbon Gas Vent"@,
                ResourceKind::Oil => "Hydrocarbon Gas Vent"@,
            },
    {
        match self {
            ResourceKind::Iron => "Ferrite Gas Vent",
            ResourceKind::Copper => "Conductive Gas Vent",
            ResourceKind::Stone => "Silicate Gas Vent",
            ResourceKind::Coal => "Carbon Gas Vent",
            ResourceKind::Oil => "Hydrocarbon Gas Vent",
        }
    }

    pub fn short(self) -> (r: &'static str)
        ensures
            r@ == match self {
                ResourceKind::Iron => "Ferrite Gas"@,
                ResourceKind::Copper => "Conductive Gas"@,
                ResourceKind::Stone => "Silicate Gas"@,
                ResourceKind::Coal => "Carbon Gas"@,
                ResourceKind::Oil => "Hydrocarbon Gas"@,
            },
    {
        match self {
            ResourceKind::Iron => "Ferrite Gas",
            ResourceKind::Copper => "Conductive Gas",
            ResourceKind::Stone => "Silicate Gas",
            ResourceKind::Coal => "Carbon Gas",
            ResourceKind::Oil => "Hydrocarbon Gas",
        }
    }

    pub fn as_u8(self) -> (r: u8)
        ensures
            r == kind_code(self),
    {
        match self {
            ResourceKind::Iron => 0,
            ResourceKind::Copper => 1,
            ResourceKind::Stone => 2,
            ResourceKind::Coal => 3,
            ResourceKind::Oil => 4,
        }
    }

    pub fn from_u8(v: u8) -> (r: Option<Self>)
        ensures
            r is Some <==> v < 5,
            r matches Some(k) ==> kind_code(k) == v,
    {
        match v {
            0 => Some(ResourceKind::Iron),
            1 => Some(ResourceKind::Copper),
            2 => Some(ResourceKind::Stone),
            3 => Some(ResourceKind::Coal),
            4 => Some(ResourceKind::Oil),
            _ => None,
        }
    }

    /// Soft gas tint for the field outline and ooze.
    pub fn color(self) -> (r: Color)
        ensures
            r == match self {
                ResourceKind::Iron => rgba_color(110, 190, 210, 255),
                ResourceKind::Copper => rgba_color(220, 150, 80, 255),
                ResourceKind::Stone => rgba_color(180, 175, 165, 255),
                ResourceKind::Coal => rgba_color(120, 100, 150, 255),
                ResourceKind::Oil => rgba_color(70, 190, 140, 255),
            },
    {
        match self {
            ResourceKind::Iron => color_from_rgba(110, 190, 210, 255),
            ResourceKind::Copper => color_from_rgba(220, 150, 80, 255),
            ResourceKind::Stone => color_from_rgba(180, 175, 165, 255),
            ResourceKind::Coal => color_from_rgba(120, 100, 150, 255),
            ResourceKind::Oil => color_from_rgba(70, 190, 140, 255),
        }
    }

    /// Pixel gas ooze tint (RGB + suggested peak alpha).
    pub fn gas_rgba(self) -> (r: (u8, u8, u8, u8))
        ensures
            r == match self {
                ResourceKind::Iron => (100u8, 210u8, 235u8, 90u8),
                ResourceKind::Copper => (255u8, 150u8, 70u8, 85u8),
                ResourceKind::Stone => (210u8, 205u8, 195u8, 70u8),
                ResourceKind::Coal => (160u8, 115u8, 220u8, 80u8),
                ResourceKind::Oil => (60u8, 230u8, 160u8, 85u8),
            },
    {
        match self {
            ResourceKind::Iron => (100, 210, 235, 90),
            ResourceKind::Copper => (255, 150, 70, 85),
            ResourceKind::Stone => (210, 205, 195, 70),
            ResourceKind::Coal => (160, 115, 220, 80),
            ResourceKind::Oil => (60, 230, 160, 85),
        }
    }
}

/// Decoding a vent kind's number gives the kind back.
pub proof fn lemma_kind_code_roundtrip(k: ResourceKind, j: ResourceKind)
    ensures
        kind_code(k) < 5,
        kind_code(k) == kind_code(j) ==> k == j,
{
}

#[verifier::external_type_specification]
#[verifier::external_body]
pub struct ExColor(Color);

/// What macroquad's `Color::from_rgba` returns for the given channels.
pub uninterp spec fn rgba_color(r: u8, g: u8, b: u8, a: u8) -> Color;

/// `macroquad::color::Color::from_rgba`: a colour from four 0–255 channels
/// (each scaled to 0.0–1.0); the result depends on the channels alone.
#[verifier::external_body]
fn color_from_rgba(r: u8, g: u8, b: u8, a: u8) -> (c: Color)
    ensures
        c == rgba_color(r, g, b, a),
{
    Color::from_rgba(r, g, b, a)
}

/// The integer mixing hash behind vent shape seeds.
pub open spec fn spec_hash_u32(a: u32, b: u32, c: u32) -> u32 {
    let m = wrapping_add(
        wrapping_add(wrapping_mul(a, 374761393), wrapping_mul(b, 668265263)),
        wrapping_mul(c, 1274126177),
    );
    let n = wrapping_mul(m ^ (m >> 13u32), 1274126177);
    n ^ (n >> 16u32)
}

pub fn hash_u32(a: u32, b: u32, c: u32) -> (r: u32)
    ensures
        r == spec_hash_u32(a, b, c),
{
    let mut n = a.wrapping_mul(374761393).wrapping_add(b.wrapping_mul(668265263)).wrapping_add(
        c.wrapping_mul(1274126177),
    );
    n = (n ^ (n >> 13)).wrapping_mul(1274126177);
    n ^ (n >> 16)
}

} // verus!
