use vstd::prelude::*;

pub mod class_consistency;
pub mod closure_index;
pub mod config;
pub mod dataset_index;
pub mod effective_types;
pub mod error;
pub mod explanation;
pub mod idset;
pub mod identity;
pub mod materialization;
pub mod model;
pub mod output;
pub mod pairs;
pub mod policy;
pub mod profile;
pub mod property_chain;
pub mod property_closure;
pub mod property_consistency;
pub mod reasoning;
pub mod relation;
pub mod symbols;
pub mod traits;
pub mod vocabulary;

verus! {
} // verus!
