//! CodeFlow: turns source code into control-flow graphs and lays them out
//! as orthogonal flowcharts.
pub mod geometry;
pub mod graph;
pub mod labels;
pub mod layout;
pub mod octave_flow;
pub mod parsers;
pub mod passes;
pub mod path;
pub mod plan;
pub mod python_flow;
pub mod render;
pub mod ports;
pub mod router;
pub mod routing;
pub mod rust_flow;
pub mod scoring;
pub mod validate;
pub mod text;
