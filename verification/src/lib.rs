//! An entity component system core: archetype bookkeeping, change tracking,
//! double-buffered events, system access validation and schedule ordering.
pub mod schedule;
pub mod ordering;
pub mod validation;
pub mod reactivity;
pub mod events;
pub mod generation;
pub mod type_set;
pub mod entity;
pub mod registry;
pub mod archetypes;
pub mod app;
pub mod filter;
pub mod query;
pub mod commands;
pub mod world;
pub mod resources;
pub mod system_data;
