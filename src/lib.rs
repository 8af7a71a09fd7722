//! An in-memory object store: aggregate roots (beings) hold sub-objects
//! (entities) whose typed properties live in sharded partitions (worlds),
//! with a flatten/rehydrate snapshot protocol.
mod ascend;
mod error;
mod laws;
mod starsystem;
mod uid;
mod world;

pub use ascend::{AscendedBeing, AscendedComponent, AscendedEntity};
pub use error::StoreError;
pub use laws::{creation_step, law_created_ids_unique, law_mirrors_match_partitions, law_remove_twice, law_root_ids_unique, law_round_trip};
pub use starsystem::{Being, StarEntity, StarEntityLocation, StarEntityProperty, StarSystem};
pub use uid::Uid;
pub use world::{Component, Entity, EnumIndex, World};
