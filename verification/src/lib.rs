use vstd::prelude::*;

pub mod category;
pub mod codegen;
pub mod config;
pub mod device;
pub mod driver;
pub mod driver_manager;
pub mod driver_spec;
pub mod error;
pub mod json;
pub mod laws;
pub mod literal;
pub mod resolve;
pub mod schema_map;
pub mod subcommand;
pub mod text;
pub mod util;
pub mod validation;
pub mod wire;

verus! {
}
