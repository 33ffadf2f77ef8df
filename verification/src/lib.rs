pub mod text;
pub mod value;
pub mod shard;
pub mod table;
pub mod client;
pub mod codec;
pub mod error;
pub mod database;
pub mod laws;
pub mod parser;
pub mod stream_processor;

use vstd::prelude::*;

verus! {

/// Reports whether the process heap is over its configured budget, given the
/// currently allocated byte count and the configured ceiling.
pub fn out_of_memory(allocated: usize, limit: usize) -> (r: bool)
    ensures
        r == (allocated > limit),
{
    allocated > limit
}

} // verus!
