//! Retained UI structure, input routing decisions, and identity keys of the byte engine's user interface.
use vstd::prelude::*;

pub mod animation;
pub mod commands;
pub mod context;
pub mod depth;
pub mod drag;
pub mod element;
pub mod engine_state;
pub mod evaluation_context;
pub mod font;
pub mod futures;
pub mod hit_grid;
pub mod input;
pub mod layout_box;
pub mod layout_plan;
pub mod measure_cache;
pub mod primitive;
pub mod properties;
pub mod query;
pub mod render_model;
pub mod render_pass;
pub mod render_plan;
pub mod retained_tree;
pub mod routing;
pub mod runtime;

verus! {

} // verus!
