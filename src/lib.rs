use vstd::prelude::*;

pub mod connection;
pub mod server;

verus! {

} // verus!
