use vstd::prelude::*;

pub mod controller;
pub mod layout;
pub mod warnings;

verus! {

} // verus!
