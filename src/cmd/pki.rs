//! `pki list-keys`.

use vstd::prelude::*;

verus! {

/// The options of the `pki` command.
pub struct Opts {
    pub cmd: Cmd,
}

/// The `pki` subcommands.
pub enum Cmd {
    /// Lists all keys in the key store.
    ListKeys,
}

} // verus!
