//! The verified core of a visual patch editor for a modular synthesizer.

pub mod actions;
pub mod actions_laws;
pub mod atlas;
pub mod atlas_laws;
pub mod audio;
pub mod barycenter;
pub mod chrome;
pub mod chrome_laws;
pub mod columns;
pub mod cycles;
pub mod dag;
pub mod dock;
pub mod edit;
pub mod edit_laws;
pub mod editor;
pub mod editor_laws;
pub mod flow;
pub mod graph;
pub mod graph_laws;
pub mod hit;
pub mod hit_laws;
pub mod layers;
pub mod layout;
pub mod layout_laws;
pub mod model;
pub mod model_laws;
pub mod render;
pub mod scene_laws;
pub mod search_laws;
pub mod segment_laws;
pub mod segments;
pub mod sort_laws;
pub mod text;
pub mod topo;
