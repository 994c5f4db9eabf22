//! Data dependences between blocks.

use vstd::prelude::*;
use crate::cfg::blocks::CfgGraph;

verus! {

/// The data dependences of a control flow graph (pairs of blocks, the
/// definition first). Variables are not tracked yet, so there are none.
pub fn compute_data_deps(_cfg: &CfgGraph) -> (r: Vec<(usize, usize)>)
    ensures
        r@.len() == 0,
{
    Vec::new()
}

} // verus!
