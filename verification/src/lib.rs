use vstd::prelude::*;

pub mod string_pool;
pub mod text;
pub mod keyed;
pub mod property;
pub mod node;
pub mod edge;
pub mod parser;
pub mod graph;
pub mod planner;
pub mod framing;
pub mod laws;
pub mod parse_where;
pub mod api;
