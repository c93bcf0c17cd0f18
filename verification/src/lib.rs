use vstd::prelude::*;

pub mod aircraft;
pub mod airfield;
pub mod bombers;
pub mod duplicate;
pub mod frontlines;
pub mod help;
pub mod flights;
pub mod locale;
pub mod mapfighters;
pub mod mapground;
pub mod mapload;
pub mod model_spec;
pub mod pack;
pub mod ast;
pub mod parser;
pub mod placement;
pub mod recon;
pub mod serialize;
pub mod text;
