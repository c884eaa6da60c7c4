//! Verified generator of IOS-XR-style VLAN/trunk configuration commands.
//!
//! The crate turns a declarative description of desired changes to a
//! switch's VLAN configuration into the exact command sequence for the
//! device, validated against the device's current configuration.
#![verifier::loop_isolation(false)]

pub mod span;
pub mod text;
pub mod omap;
pub mod node;
pub mod diagnostic;
pub mod parse;
pub mod semantics;
pub mod model;
pub mod input_parser;
pub mod validator;
pub mod planner;
pub mod codegen;
pub mod engine;
pub mod laws;
pub mod simplified_config;

use vstd::prelude::*;

verus! {

} // verus!
