//! Batch texture conversion and sprite-animation assembly: the decisions and
//! algorithms, verified; the tools, files and threads are driven by the caller.
pub mod animation;
pub mod batch;
pub mod cli;
pub mod coord;
pub mod frame;
pub mod order;
pub mod paths;
pub mod scan;
pub mod sequence;
pub mod sprite;
pub mod text;
