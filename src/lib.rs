//! A small entity-component-system runtime: entities are row indices into
//! per-type component columns, resources are per-type singletons, and named
//! schedules hold ordered lists of systems run against the world.
pub mod component;
pub mod entity;
mod keyed;
pub mod laws;
pub mod schedule;
pub mod world;
