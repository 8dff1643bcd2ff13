//! Verified core of the Kessetsu circuit language: typed expressions, module
//! elaboration, connectivity, electrical rule checks and model registries.
pub mod text;
pub mod ir;
pub mod expression;
pub mod ast;
pub mod component;
pub mod graph;
pub mod erc;
pub mod hashing;
pub mod exporter;
pub mod compiler;
pub mod experiment;
pub mod measurement;
pub mod capabilities;
pub mod models;
pub mod elaboration;
pub mod model_resources;
pub mod layout;
pub mod parts;
pub mod devices;
pub mod handoff;
pub mod lowering;
pub mod ltspice;
pub mod parameters;
pub mod pipeline;
pub mod bom;
