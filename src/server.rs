//! The dispatcher: the single writer of the key store and the graph, which
//! handles the messages that peers send.

use crate::graph::{add_spec, index_of, Graph, GraphError, GraphFailure};
use crate::pki::{lookup, KeyStore};
use crate::protocol::{fresh_peer_id, Message, Msg, TransactionList};
use crate::transaction::{decode, utf8_text, ParseError, ParseFailure, Transaction, TransactionView};
use vstd::prelude::*;

verus! {

/// The key store and graph of a node, mathematically.
pub struct NodeState {
    pub keys: Seq<(Seq<char>, Seq<u8>)>,
    pub txs: Seq<TransactionView>,
}

/// Why a message was not fully handled.
#[derive(Debug)]
pub enum DispatchError {
    /// A transaction's bytes are not UTF-8 text.
    NotText,
    /// A transaction does not parse.
    Parse(ParseError),
    /// A transaction was refused by the graph.
    Graph(GraphError),
    /// The graph has no root and the batch holds none.
    MissingRoot,
}

pub enum DispatchFailure {
    NotText,
    Parse(ParseFailure),
    Graph(GraphFailure),
    MissingRoot,
}

impl View for DispatchError {
    type V = DispatchFailure;

    open spec fn view(&self) -> DispatchFailure {
        match self {
            DispatchError::NotText => DispatchFailure::NotText,
            DispatchError::Parse(e) => DispatchFailure::Parse(e@),
            DispatchError::Graph(e) => DispatchFailure::Graph(e@),
            DispatchError::MissingRoot => DispatchFailure::MissingRoot,
        }
    }
}

/// The transaction that the bytes of one list entry carry.
pub open spec fn parse_entry(bytes: Seq<u8>) -> Result<TransactionView, DispatchFailure> {
    if !vstd::utf8::valid_utf8(bytes) {
        Err(DispatchFailure::NotText)
    } else {
        match decode(bytes) {
            Err(e) => Err(DispatchFailure::Parse(e)),
            Ok(t) => Ok(t),
        }
    }
}

/// The transactions of a batch, or the first entry's failure.
pub open spec fn parse_batch(batch: Seq<Seq<u8>>) -> Result<Seq<TransactionView>, DispatchFailure>
    decreases batch.len(),
{
    if batch.len() == 0 {
        Ok(Seq::<TransactionView>::empty())
    } else {
        match parse_batch(batch.drop_last()) {
            Err(e) => Err(e),
            Ok(ts) => match parse_entry(batch.last()) {
                Err(e) => Err(e),
                Ok(t) => Ok(ts.push(t)),
            },
        }
    }
}

/// Adding one transaction: its embedded key is stored first when its key id
/// is new, then the transaction goes into the graph.
pub open spec fn add_tx(s: NodeState, t: TransactionView) -> (NodeState, Result<(), DispatchFailure>) {
    let keys = if lookup(s.keys, t.key_id) is None && t.key is Some {
        s.keys.push((t.key_id, t.key.unwrap()))
    } else {
        s.keys
    };
    if !vstd::utf8::valid_utf8(t.data) {
        (NodeState { keys, txs: s.txs }, Err(DispatchFailure::Graph(GraphFailure::NotText)))
    } else {
        match add_spec(s.txs, t) {
            Ok(v) => (NodeState { keys, txs: v }, Ok(())),
            Err(e) => (NodeState { keys, txs: s.txs }, Err(DispatchFailure::Graph(e))),
        }
    }
}

/// Adding the transactions of `ts` in order, skipping those present and
/// stopping at the first failure.
pub open spec fn add_rest(s: NodeState, ts: Seq<TransactionView>) -> (NodeState, Result<(), DispatchFailure>)
    decreases ts.len(),
{
    if ts.len() == 0 {
        (s, Ok(()))
    } else if index_of(s.txs, ts[0].id) is Some {
        add_rest(s, ts.drop_first())
    } else {
        let (s1, r) = add_tx(s, ts[0]);
        match r {
            Err(e) => (s1, Err(e)),
            Ok(_) => add_rest(s1, ts.drop_first()),
        }
    }
}

/// The position of the first root of `ts` at or after `i`.
pub open spec fn first_root_from(ts: Seq<TransactionView>, i: int) -> Option<int>
    decreases ts.len() - i,
{
    if i < 0 || i >= ts.len() {
        None
    } else if ts[i].prevs.len() == 0 {
        Some(i)
    } else {
        first_root_from(ts, i + 1)
    }
}

/// Handling a transaction list: parse every entry, then, on an empty graph,
/// insert the batch's first root, then insert the others in order.
pub open spec fn dispatch(s: NodeState, batch: Seq<Seq<u8>>) -> (NodeState, Result<(), DispatchFailure>) {
    match parse_batch(batch) {
        Err(e) => (s, Err(e)),
        Ok(ts) => if s.txs.len() == 0 {
            match first_root_from(ts, 0) {
                None => (s, Err(DispatchFailure::MissingRoot)),
                Some(r) => {
                    let (s1, res) = add_tx(s, ts[r]);
                    match res {
                        Err(e) => (s1, Err(e)),
                        Ok(_) => add_rest(s1, ts.remove(r)),
                    }
                },
            }
        } else {
            add_rest(s, ts)
        },
    }
}

pub open spec fn batch_view(b: Seq<Vec<u8>>) -> Seq<Seq<u8>> {
    b.map_values(|v: Vec<u8>| v@)
}

pub open spec fn txs_view(v: Seq<Transaction>) -> Seq<TransactionView> {
    v.map_values(|t: Transaction| t@)
}

pub open spec fn outcome_of(r: Result<(), DispatchError>) -> Result<(), DispatchFailure> {
    match r {
        Ok(()) => Ok(()),
        Err(e) => Err(e@),
    }
}

/// The state of a node: its peer id, its handshake mode, its key store and
/// its graph.
pub struct Server {
    strict: bool,
    peer_id: u128,
    graph: Graph,
    key_store: KeyStore,
}

impl View for Server {
    type V = NodeState;

    closed spec fn view(&self) -> NodeState {
        NodeState { keys: self.key_store@, txs: self.graph@ }
    }
}

impl Server {
    pub closed spec fn wf(&self) -> bool {
        self.graph.wf() && self.key_store.wf()
    }

    pub closed spec fn spec_strict(&self) -> bool {
        self.strict
    }

    /// The peer id drawn at construction.
    pub closed spec fn spec_peer_id(&self) -> u128 {
        self.peer_id
    }

    /// A node over an opened key store and graph, with a fresh peer id and
    /// strict mode off.
    pub fn new(graph: Graph, key_store: KeyStore) -> (r: Server)
        requires
            graph.wf(),
            key_store.wf(),
        ensures
            r.wf(),
            r@ == (NodeState { keys: key_store@, txs: graph@ }),
            !r.spec_strict(),
    {
        Server { strict: false, peer_id: fresh_peer_id(), graph, key_store }
    }

    /// The local peer id.
    pub fn peer_id(&self) -> (r: u128)
        ensures
            r == self.spec_peer_id(),
    {
        self.peer_id
    }

    /// Whether handshakes must carry a version.
    pub fn strict(&self) -> (r: bool)
        ensures
            r == self.spec_strict(),
    {
        self.strict
    }

    /// The graph.
    pub fn graph(&self) -> (r: &Graph)
        requires
            self.wf(),
        ensures
            r.wf(),
            r@ == self@.txs,
    {
        &self.graph
    }

    /// The key store.
    pub fn key_store(&self) -> (r: &KeyStore)
        requires
            self.wf(),
        ensures
            r.wf(),
            r@ == self@.keys,
    {
        &self.key_store
    }

    /// Handles one message: transaction lists are processed, other kinds
    /// are ignored.
    pub fn handle(&mut self, msg: Msg) -> (r: Result<(), DispatchError>)
        requires
            old(self).wf(),
        ensures
            final(self).wf(),
            final(self).spec_peer_id() == old(self).spec_peer_id(),
            final(self).spec_strict() == old(self).spec_strict(),
            match msg.message {
                Message::TransactionList(l) => (final(self)@, outcome_of(r)) == dispatch(
                    old(self)@,
                    batch_view(l.transactions@),
                ),
                _ => final(self)@ == old(self)@ && r is Ok,
            },
    {
        match msg.message {
            Message::TransactionList(list) => self.handle_transaction_list(list),
            _ => Ok(()),
        }
    }

    /// Adds one transaction, storing its embedded key first when its key id
    /// is new.
    fn add_transaction(&mut self, tx: Transaction) -> (r: Result<(), DispatchError>)
        requires
            old(self).wf(),
        ensures
            final(self).wf(),
            final(self).spec_peer_id() == old(self).spec_peer_id(),
            final(self).spec_strict() == old(self).spec_strict(),
            (final(self)@, outcome_of(r)) == add_tx(old(self)@, tx@),
    {
        if !self.key_store.contains(tx.key_id.as_str()) {
            match &tx.key {
                Some(k) => {
                    match self.key_store.add(tx.key_id.clone(), k.duplicate()) {
                        Ok(()) => {},
                        // not reached: the id was just found absent
                        Err(_) => {},
                    }
                },
                None => {},
            }
        }
        match self.graph.add(tx) {
            Ok(_) => Ok(()),
            Err(e) => Err(DispatchError::Graph(e)),
        }
    }

    /// Handles a transaction list: every entry is parsed first, and a
    /// failure there changes nothing; on an empty graph the batch's first
    /// root goes in first; the others follow in order, skipping those
    /// present, up to the first failure.
    pub fn handle_transaction_list(&mut self, data: TransactionList) -> (r: Result<(), DispatchError>)
        requires
            old(self).wf(),
        ensures
            final(self).wf(),
            final(self).spec_peer_id() == old(self).spec_peer_id(),
            final(self).spec_strict() == old(self).spec_strict(),
            (final(self)@, outcome_of(r)) == dispatch(old(self)@, batch_view(data.transactions@)),
    {
        let ghost batch = batch_view(data.transactions@);
        let mut transactions: Vec<Transaction> = Vec::new();
        let mut i: usize = 0;
        assert(batch.subrange(0, 0) =~= Seq::<Seq<u8>>::empty());
        assert(txs_view(transactions@) =~= Seq::<TransactionView>::empty());
        while i < data.transactions.len()
            invariant
                self.wf(),
                self@ == old(self)@,
                self.spec_peer_id() == old(self).spec_peer_id(),
                self.spec_strict() == old(self).spec_strict(),
                batch == batch_view(data.transactions@),
                0 <= i <= data.transactions@.len(),
                parse_batch(batch.subrange(0, i as int)) == Ok::<Seq<TransactionView>, DispatchFailure>(txs_view(transactions@)),
            decreases data.transactions@.len() - i,
        {
            let ghost sub = batch.subrange(0, i + 1);
            assert(sub.drop_last() =~= batch.subrange(0, i as int));
            assert(sub.last() == data.transactions@[i as int]@);
            let ghost before = txs_view(transactions@);
            let bytes = data.transactions[i].as_slice();
            let text = match utf8_text(bytes) {
                Some(t) => t,
                None => {
                    proof {
                        lemma_parse_batch_error(batch, i + 1);
                    }
                    return Err(DispatchError::NotText);
                },
            };
            proof {
                vstd::utf8::decode_utf8_encode_utf8(bytes@);
            }
            match Transaction::parse_unsafe(text) {
                Ok(tx) => {
                    transactions.push(tx);
                    assert(txs_view(transactions@) =~= before.push(tx@));
                },
                Err(e) => {
                    proof {
                        lemma_parse_batch_error(batch, i + 1);
                    }
                    return Err(DispatchError::Parse(e));
                },
            }
            i = i + 1;
        }
        assert(batch.subrange(0, i as int) =~= batch);
        let ghost ts = txs_view(transactions@);
        if self.graph.len() == 0 {
            let mut k: usize = 0;
            while k < transactions.len() && !transactions[k].is_root()
                invariant
                    ts == txs_view(transactions@),
                    0 <= k <= transactions@.len(),
                    first_root_from(ts, 0) == first_root_from(ts, k as int),
                decreases transactions@.len() - k,
            {
                k = k + 1;
            }
            if k == transactions.len() {
                return Err(DispatchError::MissingRoot);
            }
            let root = transactions.remove(k);
            assert(txs_view(transactions@) =~= ts.remove(k as int));
            match self.add_transaction(root) {
                Ok(()) => {},
                Err(e) => {
                    return Err(e);
                },
            }
        }
        self.add_all(&transactions)
    }

    /// Adds the transactions of `ts` in order, skipping those present, up to
    /// the first failure.
    fn add_all(&mut self, ts: &Vec<Transaction>) -> (r: Result<(), DispatchError>)
        requires
            old(self).wf(),
        ensures
            final(self).wf(),
            final(self).spec_peer_id() == old(self).spec_peer_id(),
            final(self).spec_strict() == old(self).spec_strict(),
            (final(self)@, outcome_of(r)) == add_rest(old(self)@, txs_view(ts@)),
    {
        let ghost all = txs_view(ts@);
        let mut i: usize = 0;
        assert(all.subrange(0, all.len() as int) =~= all);
        while i < ts.len()
            invariant
                self.wf(),
                self.spec_peer_id() == old(self).spec_peer_id(),
                self.spec_strict() == old(self).spec_strict(),
                all == txs_view(ts@),
                0 <= i <= ts@.len(),
                add_rest(old(self)@, all) == add_rest(self@, all.subrange(i as int, all.len() as int)),
            decreases ts@.len() - i,
        {
            let ghost rest = all.subrange(i as int, all.len() as int);
            assert(rest.drop_first() =~= all.subrange(i + 1, all.len() as int));
            assert(rest[0] == ts@[i as int]@);
            if self.graph.find(&ts[i].id).is_some() {
                i = i + 1;
                continue;
            }
            match self.add_transaction(ts[i].duplicate()) {
                Ok(()) => {},
                Err(e) => {
                    return Err(e);
                },
            }
            i = i + 1;
        }
        assert(all.subrange(i as int, all.len() as int) =~= Seq::<TransactionView>::empty());
        Ok(())
    }
}

/// A failing entry makes the whole batch fail the same way.
proof fn lemma_parse_batch_error(batch: Seq<Seq<u8>>, k: int)
    requires
        0 <= k <= batch.len(),
        parse_batch(batch.subrange(0, k)) is Err,
    ensures
        parse_batch(batch) == parse_batch(batch.subrange(0, k)),
    decreases batch.len(),
{
    if k < batch.len() {
        assert(batch.drop_last().subrange(0, k) =~= batch.subrange(0, k));
        lemma_parse_batch_error(batch.drop_last(), k);
    } else {
        assert(batch.subrange(0, k) =~= batch);
    }
}

} // verus!
