//! An archetypal entity–component–system storage engine.
//!
//! Entities are generational handles into a table of rows; each distinct set
//! of component kinds is stored in its own columnar table (an archetype),
//! whose slots a range allocator hands out; queries select archetypes by an
//! included and an excluded set of component kinds.
//!
//! - [bit_field]: bit vectors viewed as sets of indices.
//! - [ranges], [range_allocator]: half-open ranges and their allocator.
//! - [components], [any_buffer]: component kinds and columns of records.
//! - [archetype_instance], [archetype_store]: archetype tables, their
//!   registry, cached query match lists and transitions.
//! - [entity], [entity_query], [entity_registry]: handles, queries, and the
//!   registry that ties entities to archetype slots.
//! - [systems]: the life cycle of a context's list of systems.

pub mod any_buffer;
pub mod archetype_instance;
pub mod archetype_store;
pub mod bit_field;
pub mod components;
pub mod entity;
pub mod entity_query;
pub mod entity_registry;
mod free_list;
pub mod pool;
pub mod range_allocator;
pub mod ranges;
pub mod systems;
