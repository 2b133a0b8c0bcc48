//! Era 1 data packs: item/recipe/tech definitions, the interned registry and
//! research progression.

pub mod types;
pub mod registry;
pub mod tech;
pub mod pack;
pub mod search;
