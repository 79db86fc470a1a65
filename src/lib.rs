//! Prototype registry and item-storage transfer protocol for a small
//! entity sandbox.
//!
//! The library keeps its own model of the entity world: entities are indices,
//! spatial placements are an opaque copyable type `P` supplied by the host
//! engine, and the component sets that templates attach are a closed enum.
mod text;

pub mod components;
pub mod prototype;
pub mod game;
pub mod world;
pub mod storage;
pub mod console;
