//! Deterministic rules of a lockstep circle-arena brawler: match statistics,
//! lobby slot assignment, and the snapshot wire format of the world state.

pub mod fix;
pub mod lobby;
pub mod outbox;
pub mod player;
pub mod skill;
pub mod stats;
pub mod text;
pub mod wire;
pub mod world;
pub mod projectile_ser;
pub mod session;
pub mod world_ser;
