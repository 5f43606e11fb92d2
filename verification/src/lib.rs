//! The verified core of a terrain editor: the shader parameter grammar, the layer
//! documents and their bake order, the node graph, the water solve, and the
//! decisions the editor's panels make.

pub mod single;
pub mod single_laws;
pub mod grid;
pub mod grid_laws;
pub mod heap;
pub mod raster;
pub mod flood;
mod counting;
pub mod flood_laws;
pub mod drain;
pub mod transfer;
pub mod flow_laws;
pub mod lakes;
pub mod text;
pub mod text_laws;
pub mod number;
pub mod values;
pub mod params;
pub mod annotation;
pub mod annotation_laws;
pub mod declaration;
pub mod declaration_laws;
pub mod layout;
pub mod order;
pub mod names;
pub mod shader;
pub mod layout_laws;
pub mod graph;
pub mod graph_edit;
pub mod graph_remove;
pub mod graph_laws;
pub mod graph_history;
pub mod graph_wiring_laws;
pub mod layer;
pub mod water;
pub mod water_laws;
pub mod topology;
pub mod circles;
pub mod plan_error;
pub mod faults;
pub mod fault_laws;
pub mod terrain;
pub mod evaluate;
pub mod solve;
pub mod bake;
pub mod bake_laws;
pub mod document_laws;
pub mod noise;
pub mod brush;
pub mod brush_laws;
pub mod quantize;
pub mod pack;
pub mod pack_laws;
pub mod recipe;
pub mod field;
pub mod toolbar;
pub mod log;
pub mod scroll;
pub mod view;
pub mod maps;
pub mod map_laws;
pub mod bind;
pub mod panel;
pub mod panel_laws;
pub mod form;
pub mod edit;
pub mod editor_laws;
pub mod content_laws;
pub mod message_laws;
