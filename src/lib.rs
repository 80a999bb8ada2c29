//! Client-side netcode core for a fixed-timestep multiplayer simulation:
//! a compact wire codec, tick checksums, a deterministic per-tick
//! simulation, input prediction, an inbound mailbox and the scheduling
//! and reconciliation decisions around them.

pub mod codec;
pub mod tick;
pub mod player;
pub mod game;
pub mod inbox;
pub mod schedule;

pub use codec::{
    frames_from_parts, intents_from_tags, Buffer, ClientId, CommandFrame, NetType, PlayerIntent,
};
pub use tick::Tick;
pub use player::{Player, Role};
pub use game::{intents_from_keys, Game, ReconcileError};
pub use inbox::InboundQueue;
pub use schedule::{Accumulator, TICK_MICROS};
