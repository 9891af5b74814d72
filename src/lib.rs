use vstd::prelude::*;

pub mod blank;
pub mod channel;
pub mod constant;
pub mod graph;
pub mod theorems;

verus! {
}
