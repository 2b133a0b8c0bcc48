//! Shared world vocabulary: item ids, compass facings and building kinds.

use vstd::prelude::*;

verus! {

/// An interned item id. Ids `0..24` are the legacy item slots (named by the
/// constants below); content packs append further ids after them.
#[derive(Clone, Copy, Debug, PartialEq, Eq, Structural, Hash)]
pub struct Item(pub u16);

pub const IRON_ORE: u16 = 0;
pub const IRON_INGOT: u16 = 1;
pub const COPPER_ORE: u16 = 2;
pub const STONE: u16 = 3;
pub const COAL: u16 = 4;
pub const CRUDE_OIL: u16 = 5;
pub const COPPER_INGOT: u16 = 6;
pub const SLAG: u16 = 7;
pub const COKE: u16 = 8;
pub const GEAR: u16 = 9;
pub const WIRE: u16 = 10;
pub const RIVET: u16 = 11;
pub const BRICK: u16 = 12;
pub const PIPE: u16 = 13;
pub const FRAME: u16 = 14;
pub const CIRCUIT_SHARD: u16 = 15;
pub const BELT_LINK: u16 = 16;
pub const POLE_KIT: u16 = 17;
pub const SOLAR_CELL: u16 = 18;
pub const SHELL_CASING: u16 = 19;
pub const CHARGE_CELL: u16 = 20;
pub const TOTEM_CORE: u16 = 21;
pub const SCIENCE_RED: u16 = 22;
pub const SCIENCE_GREEN: u16 = 23;

/// Number of legacy item slots reserved ahead of content-pack items.
pub const LEGACY_ITEM_COUNT: u16 = 24;

impl Item {
    pub fn as_u16(self) -> (r: u16)
        ensures
            r == self.0,
    {
        self.0
    }

    pub fn from_u16(v: u16) -> (r: Item)
        ensures
            r.0 == v,
    {
        Item(v)
    }
}

/// Compass facing on the tile grid (`S` is +y, `E` is +x).
#[derive(Clone, Copy, Debug, PartialEq, Eq, Structural, Hash)]
pub enum Facing {
    N,
    E,
    S,
    W,
}

pub open spec fn spec_rotate_cw(f: Facing) -> Facing {
    match f {
        Facing::N => Facing::E,
        Facing::E => Facing::S,
        Facing::S => Facing::W,
        Facing::W => Facing::N,
    }
}

/// Wire number of a facing (declaration order).
pub open spec fn facing_code(f: Facing) -> u8 {
    match f {
        Facing::N => 0,
        Facing::E => 1,
        Facing::S => 2,
        Facing::W => 3,
    }
}

/// Facing read from its wire number; out-of-range numbers read as north.
pub open spec fn facing_read(v: u8) -> Facing {
    if v == 1 {
        Facing::E
    } else if v == 2 {
        Facing::S
    } else if v == 3 {
        Facing::W
    } else {
        Facing::N
    }
}

impl Facing {
    pub fn as_u8(self) -> (r: u8)
        ensures
            r == facing_code(self),
    {
        match self {
            Facing::N => 0,
            Facing::E => 1,
            Facing::S => 2,
            Facing::W => 3,
        }
    }

    /// Facing from its wire number; out-of-range numbers read as north.
    pub fn from_u8(v: u8) -> (r: Facing)
        ensures
            r == facing_read(v),
            v < 4 ==> facing_code(r) == v,
            v >= 4 ==> r == Facing::N,
    {
        match v {
            1 => Facing::E,
            2 => Facing::S,
            3 => Facing::W,
            _ => Facing::N,
        }
    }

    /// Quarter turn clockwise (N → E → S → W → N).
    pub fn rotate_cw(self) -> (r: Facing)
        ensures
            r == spec_rotate_cw(self),
    {
        match self {
            Facing::N => Facing::E,
            Facing::E => Facing::S,
            Facing::S => Facing::W,
            Facing::W => Facing::N,
        }
    }
}

/// Everything the player can place (buildings, cables, tools, debug spawners).
#[derive(Clone, Copy, Debug, PartialEq, Eq, Structural, Hash)]
pub enum BuildingKind {
    PowerPole,
    Solar,
    OreNode,
    Smelter,
    Assembler,
    Machine,
    Lab,
    Box,
    FluidTank,
    Splitter,
    Pipe,
    Totem,
    Wall,
    ReinforcedWall,
    BallisticTurret,
    Turret,
    LaserTurret,
    NexusSite,
    Nexus,
    PowerWire,
    Conveyor,
    SpawnAssault,
    SpawnHunter,
    SpawnSaboteur,
    SpawnFogcaller,
    SpawnNest,
}

/// Wire number of each building kind (declaration order).
pub open spec fn spec_kind_code(k: BuildingKind) -> u8 {
    match k {
        BuildingKind::PowerPole => 0,
        BuildingKind::Solar => 1,
        BuildingKind::OreNode => 2,
        BuildingKind::Smelter => 3,
        BuildingKind::Assembler => 4,
        BuildingKind::Machine => 5,
        BuildingKind::Lab => 6,
        BuildingKind::Box => 7,
        BuildingKind::FluidTank => 8,
        BuildingKind::Splitter => 9,
        BuildingKind::Pipe => 10,
        BuildingKind::Totem => 11,
        BuildingKind::Wall => 12,
        BuildingKind::ReinforcedWall => 13,
        BuildingKind::BallisticTurret => 14,
        BuildingKind::Turret => 15,
        BuildingKind::LaserTurret => 16,
        BuildingKind::NexusSite => 17,
        BuildingKind::Nexus => 18,
        BuildingKind::PowerWire => 19,
        BuildingKind::Conveyor => 20,
        BuildingKind::SpawnAssault => 21,
        BuildingKind::SpawnHunter => 22,
        BuildingKind::SpawnSaboteur => 23,
        BuildingKind::SpawnFogcaller => 24,
        BuildingKind::SpawnNest => 25,
    }
}

/// Different building kinds have different wire numbers.
pub proof fn lemma_kind_code_injective()
    ensures
        forall|a: BuildingKind, b: BuildingKind| spec_kind_code(a) == spec_kind_code(b) ==> a == b,
{
}

/// The building kind with a wire number, if any.
pub open spec fn kind_of_code(v: u8) -> Option<BuildingKind> {
    if v < 26 {
        Some(choose|k: BuildingKind| spec_kind_code(k) == v)
    } else {
        None
    }
}

/// Number of building kinds; codes `0..BUILDING_KIND_COUNT` are in use.
pub const BUILDING_KIND_COUNT: u8 = 26;

impl BuildingKind {
    pub fn as_u8(self) -> (r: u8)
        ensures
            r == spec_kind_code(self),
    {
        match self {
            BuildingKind::PowerPole => 0,
            BuildingKind::Solar => 1,
            BuildingKind::OreNode => 2,
            BuildingKind::Smelter => 3,
            BuildingKind::Assembler => 4,
            BuildingKind::Machine => 5,
            BuildingKind::Lab => 6,
            BuildingKind::Box => 7,
            BuildingKind::FluidTank => 8,
            BuildingKind::Splitter => 9,
            BuildingKind::Pipe => 10,
            BuildingKind::Totem => 11,
            BuildingKind::Wall => 12,
            BuildingKind::ReinforcedWall => 13,
            BuildingKind::BallisticTurret => 14,
            BuildingKind::Turret => 15,
            BuildingKind::LaserTurret => 16,
            BuildingKind::NexusSite => 17,
            BuildingKind::Nexus => 18,
            BuildingKind::PowerWire => 19,
            BuildingKind::Conveyor => 20,
            BuildingKind::SpawnAssault => 21,
            BuildingKind::SpawnHunter => 22,
            BuildingKind::SpawnSaboteur => 23,
            BuildingKind::SpawnFogcaller => 24,
            BuildingKind::SpawnNest => 25,
        }
    }

    pub fn from_u8(v: u8) -> (r: Option<BuildingKind>)
        ensures
            r matches Some(k) ==> spec_kind_code(k) == v,
            r is Some <==> v < BUILDING_KIND_COUNT,
            r == kind_of_code(v),
    {
        let r = match v {
            0 => Some(BuildingKind::PowerPole),
            1 => Some(BuildingKind::Solar),
            2 => Some(BuildingKind::OreNode),
            3 => Some(BuildingKind::Smelter),
            4 => Some(BuildingKind::Assembler),
            5 => Some(BuildingKind::Machine),
            6 => Some(BuildingKind::Lab),
            7 => Some(BuildingKind::Box),
            8 => Some(BuildingKind::FluidTank),
            9 => Some(BuildingKind::Splitter),
            10 => Some(BuildingKind::Pipe),
            11 => Some(BuildingKind::Totem),
            12 => Some(BuildingKind::Wall),
            13 => Some(BuildingKind::ReinforcedWall),
            14 => Some(BuildingKind::BallisticTurret),
            15 => Some(BuildingKind::Turret),
            16 => Some(BuildingKind::LaserTurret),
            17 => Some(BuildingKind::NexusSite),
            18 => Some(BuildingKind::Nexus),
            19 => Some(BuildingKind::PowerWire),
            20 => Some(BuildingKind::Conveyor),
            21 => Some(BuildingKind::SpawnAssault),
            22 => Some(BuildingKind::SpawnHunter),
            23 => Some(BuildingKind::SpawnSaboteur),
            24 => Some(BuildingKind::SpawnFogcaller),
            25 => Some(BuildingKind::SpawnNest),
            _ => None,
        };
        proof {
            lemma_kind_code_injective();
            if v < 26 {
                assert(spec_kind_code(r->0) == v);
                let c = choose|c: BuildingKind| spec_kind_code(c) == v;
                assert(spec_kind_code(c) == v);
            }
        }
        r
    }
}

} // verus!
