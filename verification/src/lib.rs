//! File-level tooling for KiCad boards and schematics: netlist diffing, pad-net
//! editing, ERC/DRC report reading and netclass bookkeeping.
pub mod annotate;
pub mod blocks;
pub mod board_edit;
pub mod cli;
pub mod decimal;
pub mod edits;
pub mod image;
pub mod json;
pub mod layout;
pub mod netclass;
pub mod netlist;
pub mod nets;
pub mod order;
pub mod padnet;
pub mod padnet_twice;
pub mod pads;
pub mod plan;
pub mod ratsnest;
pub mod report;
pub mod requests;
pub mod sexp;
pub mod spelling;
pub mod text;
pub mod zones;
