//! Verified editing core for KiCAD schematics and boards.

pub mod at_node;
pub mod blocks;
pub mod board_file;
pub mod builder_laws;
pub mod bulk_move_laws;
pub mod cache;
pub mod chars;
pub mod choice_laws;
pub mod component_laws;
pub mod components;
pub mod connection_laws;
pub mod connectivity;
pub mod copper;
pub mod copying_laws;
pub mod definition_laws;
pub mod deletion;
pub mod edit;
pub mod exchange;
pub mod field_laws;
pub mod fields;
pub mod footprint;
pub mod grammar;
pub mod graphics;
pub mod ident;
pub mod image;
pub mod install;
pub mod items;
pub mod label_laws;
pub mod layer_laws;
pub mod layers;
pub mod library;
pub mod lines;
pub mod listing_laws;
pub mod moving;
pub mod net;
pub mod net_laws;
pub mod netclass_laws;
pub mod number;
pub mod pad_laws;
pub mod pads;
pub mod pairs;
pub mod placing;
pub mod position_laws;
pub mod property_laws;
pub mod query;
pub mod reading_laws;
pub mod rename_laws;
pub mod rewriting;
pub mod rotation_laws;
pub mod routing;
pub mod rule_laws;
pub mod scan;
pub mod sch_batch;
pub mod sch_components;
pub mod schematic;
pub mod schematic_builder;
pub mod sexp;
pub mod similar;
pub mod substitution;
pub mod symbol;
pub mod symbol_laws;
pub mod text;
pub mod together_laws;
pub mod turning;
pub mod types;
pub mod undo;
pub mod verification;
pub mod wire_laws;
pub mod zone_laws;
pub mod zone_net;
pub mod zone_rounds;
