//! Mass-balance flowsheet library: the configuration, the flowsheet topology,
//! the port layout of each unit operation, the evaluation order of a
//! flowsheet and the wiring of the streams between its nodes.

pub mod config;
pub mod text;
pub mod model;
pub mod ports;
pub mod error;
pub mod dag;
pub mod engine;
pub mod report;
pub mod editor;
