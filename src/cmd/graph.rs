//! `graph list` and `graph get <hex_id>`.

use crate::graph::{index_of, Graph};
use crate::hash::{lower_hex_decoded, HashError};
use crate::transaction::Transaction;
use vstd::prelude::*;
use vstd::string::StringSliceAdditionalSpecFns;

verus! {

/// The options of the `graph` command.
pub struct Opts {
    pub cmd: Cmd,
}

/// The options of `graph get`.
pub struct GetOpts {
    pub id: String,
}

/// The `graph` subcommands.
pub enum Cmd {
    /// Lists all transactions in the DAG.
    List,
    /// Gets and decodes a transaction by its hash.
    Get(GetOpts),
}

/// The transaction whose id has the hex text `id`, if present.
pub fn find_by_hex<'a>(graph: &'a Graph, id: &str) -> (r: Result<Option<&'a Transaction>, HashError>)
    requires
        graph.wf(),
    ensures
        match r {
            Ok(Some(t)) => lower_hex_decoded(id.spec_bytes()) == Some(t@.id) && index_of(graph@, t@.id) is Some
                && t@ == graph@[index_of(graph@, t@.id).unwrap() as int],
            Ok(None) => match lower_hex_decoded(id.spec_bytes()) {
                Some(h) => h.len() == 32 && index_of(graph@, h) is None,
                None => false,
            },
            Err(e) => match lower_hex_decoded(id.spec_bytes()) {
                Some(h) => h.len() != 32 && e == HashError::InvalidLength,
                None => e == HashError::InvalidHex,
            },
        },
{
    let hash = match crate::hash::Hash::parse_hex(id.as_bytes()) {
        Ok(h) => h,
        Err(e) => {
            return Err(e);
        },
    };
    proof {
        crate::graph::lemma_index_of(graph@, hash@);
    }
    Ok(graph.get(&hash))
}

} // verus!
