//! Map intelligence for Space Station 13: a spatial index over `.dmm` maps, tile editing, a
//! prefab builder, rule validation, and the planning half of a sprite extractor.

pub mod text;
pub mod text_laws;
pub mod prefab;
pub mod tables;
pub mod counting;
pub mod dmm;
pub mod index;
pub mod index_laws;
pub mod json;
pub mod names;
pub mod objtree;
pub mod layers;
pub mod state;
pub mod building_laws;
pub mod saving;
pub mod state_laws;
pub mod edit_laws;
pub mod constants;
pub mod display;
pub mod value_laws;
pub mod builder;
pub mod builder_laws;
pub mod builder_tools;
pub mod rules;
pub mod scripts;
pub mod evaluate;
pub mod evaluate_laws;
pub mod js;
pub mod engine;
pub mod script_laws;
pub mod render;
pub mod tools;
pub mod tool_laws;
pub mod patterns;
pub mod syntax;
pub mod analysis;
pub mod brackets;
pub mod overlays;
pub mod overlay_laws;
pub mod branch_laws;
pub mod walk_laws;
pub mod walker;
pub mod sprites;
pub mod extraction;
pub mod extraction_laws;
pub mod cli;
