//! Middle end of an RPC/IDL code generator: name resolution, IR lowering,
//! codegen type lattices, and the package tree used to lay out emitted modules.
use vstd::prelude::*;

pub mod context;
pub mod idmap;
pub mod ir;
pub mod index;
pub mod pkg_tree;
pub mod resolve;
pub mod rir;
pub mod symbol;
pub mod symtab;
pub mod tags;
pub mod ty;

verus! {

} // verus!
