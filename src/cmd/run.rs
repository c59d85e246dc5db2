//! `run <bootstrap_addr>...`.

use vstd::prelude::*;

verus! {

/// The options of the `run` command: the peers to connect to first.
pub struct Opts {
    pub bootstrap_node: Vec<String>,
}

} // verus!
