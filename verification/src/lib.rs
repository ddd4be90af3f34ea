//! A whole-program analysis of pointers, which finds out which of them can become references.
use vstd::prelude::*;

pub mod adts;
pub mod analysis;
pub mod assigning;
pub mod assignment;
pub mod callbacks;
pub mod callgraph;
pub mod checking;
pub mod constraining;
pub mod context;
pub mod def_id;
pub mod definitions;
pub mod describe;
pub mod fixed_defs;
pub mod fixing;
pub mod flags;
pub mod function;
pub mod gathering;
pub mod graph;
pub mod keyed_map;
pub mod labeling;
pub mod marks;
pub mod maybe_unset;
pub mod mir;
pub mod pdg;
pub mod permissions;
pub mod pointee;
pub mod pointer_id;
pub mod program;
pub mod relabel;
pub mod remap;
pub mod remapping;
pub mod report;
pub mod rewriting;
pub mod solving;
pub mod temporaries;
pub mod text;
pub mod ty;
pub mod wellformed;

verus! {

} // verus!
