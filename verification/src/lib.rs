//! Factory-builder game rules: inventory stacking, crafting tables, belt
//! topology, research gating and the small text protocols around them.

pub mod sim;
pub mod text;
pub mod inventory;
pub mod content;
pub mod recipes;
pub mod belts;
pub mod deposits;
pub mod save;
pub mod net;
pub mod perf_log;
pub mod paths;
pub mod relay;
pub mod player;
pub mod host;
