use vstd::prelude::*;

pub mod builtins;
pub mod hack;
pub mod history;

verus! {

} // verus!
