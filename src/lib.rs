use vstd::prelude::*;

pub mod extensional;
pub mod model;
pub mod objects;
pub mod parser;
pub mod canon;

verus! {

broadcast use vstd::std_specs::vec::axiom_vec_index_decreases;

} // verus!
