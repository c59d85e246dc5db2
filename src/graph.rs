//! The graph store: a content-addressed DAG of transactions with a single
//! root, parents before children and unique ids, kept in insertion order.

use crate::transaction::{decode, utf8_text, ParseError, ParseFailure, Transaction, TransactionView};
use daggy::Walker;
use vstd::prelude::*;

verus! {

/// The node and edge structure of the graph, in a daggy DAG whose node `i`
/// stands for the `i`-th transaction.
#[verifier::external_body]
pub struct DagStore {
    dag: daggy::Dag<(), (), u32>,
}

/// The number of nodes of a DAG.
pub uninterp spec fn dag_node_count(d: DagStore) -> nat;

/// The edges `(parent, child)` of a DAG, in the order they were added.
pub uninterp spec fn dag_edges(d: DagStore) -> Seq<(nat, nat)>;

/// The children of `p`, most recently added edge first.
pub open spec fn children_of(edges: Seq<(nat, nat)>, p: nat) -> Seq<nat>
    decreases edges.len(),
{
    if edges.len() == 0 {
        Seq::<nat>::empty()
    } else if edges.last().0 == p {
        seq![edges.last().1] + children_of(edges.drop_last(), p)
    } else {
        children_of(edges.drop_last(), p)
    }
}

pub open spec fn nats(s: Seq<u32>) -> Seq<nat> {
    s.map_values(|c: u32| c as nat)
}

/// Relies on daggy's `Dag::new`: a DAG without nodes or edges.
#[verifier::external_body]
fn empty_dag() -> (r: DagStore)
    ensures
        dag_node_count(r) == 0,
        dag_edges(r) == Seq::<(nat, nat)>::empty(),
{
    DagStore { dag: daggy::Dag::new() }
}

/// Relies on daggy's `Dag::add_node`: the new node's index is the old node
/// count; it panics only once the count reaches `u32::MAX`.
#[verifier::external_body]
fn dag_add_node(d: &mut DagStore) -> (r: u32)
    requires
        dag_node_count(*old(d)) < 0xFFFF_FFFF,
    ensures
        r == dag_node_count(*old(d)),
        dag_node_count(*final(d)) == dag_node_count(*old(d)) + 1,
        dag_edges(*final(d)) == dag_edges(*old(d)),
{
    d.dag.add_node(()).index() as u32
}

/// Relies on daggy's `Dag::add_edge`: the edge is appended unless it would
/// close a cycle, and no cycle check is made when `b` has no children and
/// differs from `a`.
#[verifier::external_body]
fn dag_add_edge(d: &mut DagStore, a: u32, b: u32) -> (r: bool)
    requires
        a < dag_node_count(*old(d)),
        b < dag_node_count(*old(d)),
        dag_edges(*old(d)).len() < 0xFFFF_FFFF,
    ensures
        dag_node_count(*final(d)) == dag_node_count(*old(d)),
        r ==> dag_edges(*final(d)) == dag_edges(*old(d)).push((a as nat, b as nat)),
        !r ==> dag_edges(*final(d)) == dag_edges(*old(d)),
        (a != b && forall|k: int| 0 <= k < dag_edges(*old(d)).len() ==> dag_edges(*old(d))[k].0 != b) ==> r,
{
    let (a, b) = (daggy::NodeIndex::new(a as usize), daggy::NodeIndex::new(b as usize));
    d.dag.add_edge(a, b, ()).is_ok()
}

/// Relies on daggy's `Dag::children`, which walks petgraph's outgoing edges
/// of `p`, the most recently added first.
#[verifier::external_body]
fn dag_children(d: &DagStore, p: u32) -> (r: Vec<u32>)
    requires
        p < dag_node_count(*d),
    ensures
        nats(r@) == children_of(dag_edges(*d), p as nat),
{
    d.dag.children(daggy::NodeIndex::new(p as usize)).iter(&d.dag).map(|(_, n)| n.index() as u32).collect()
}

/// The position of the first transaction with id `id`.
pub open spec fn index_of(v: Seq<TransactionView>, id: Seq<u8>) -> Option<nat>
    decreases v.len(),
{
    if v.len() == 0 {
        None
    } else {
        match index_of(v.drop_last(), id) {
            Some(j) => Some(j),
            None => if v.last().id == id {
                Some((v.len() - 1) as nat)
            } else {
                None
            },
        }
    }
}

/// The first of `ps` that no transaction of `v` has as id.
pub open spec fn first_missing(v: Seq<TransactionView>, ps: Seq<Seq<u8>>) -> Option<Seq<u8>>
    decreases ps.len(),
{
    if ps.len() == 0 {
        None
    } else if index_of(v, ps[0]) is None {
        Some(ps[0])
    } else {
        first_missing(v, ps.drop_first())
    }
}

/// The mathematical form of a `GraphError`.
pub enum GraphFailure {
    DuplicateTransaction,
    RootAlreadyPresent,
    MissingParent(Seq<u8>),
    CapacityExceeded,
    NotText,
    Parse(ParseFailure),
}

/// The most transactions a graph holds.
pub const MAX_TRANSACTIONS: usize = 0xFFFF_FFFE;

/// The outcome of inserting `t` into a graph holding `v`.
pub open spec fn add_spec(v: Seq<TransactionView>, t: TransactionView) -> Result<Seq<TransactionView>, GraphFailure> {
    if index_of(v, t.id) is Some {
        Err(GraphFailure::DuplicateTransaction)
    } else if t.prevs.len() == 0 {
        if v.len() > 0 {
            Err(GraphFailure::RootAlreadyPresent)
        } else {
            Ok(v.push(t))
        }
    } else {
        match first_missing(v, t.prevs) {
            Some(p) => Err(GraphFailure::MissingParent(p)),
            None => if v.len() >= MAX_TRANSACTIONS {
                Err(GraphFailure::CapacityExceeded)
            } else {
                Ok(v.push(t))
            },
        }
    }
}

/// The outcome of inserting the transactions of `v` one by one into an empty
/// graph.
pub open spec fn replay(v: Seq<TransactionView>) -> Result<Seq<TransactionView>, GraphFailure>
    decreases v.len(),
{
    if v.len() == 0 {
        Ok(Seq::<TransactionView>::empty())
    } else {
        match replay(v.drop_last()) {
            Err(e) => Err(e),
            Ok(w) => add_spec(w, v.last()),
        }
    }
}

/// The edges of a graph holding `v`: one from the last listed parent of
/// each non-root transaction.
pub open spec fn tree_edges(v: Seq<TransactionView>) -> Seq<(nat, nat)>
    decreases v.len(),
{
    if v.len() <= 1 {
        Seq::<(nat, nat)>::empty()
    } else {
        tree_edges(v.drop_last()).push(
            (index_of(v.drop_last(), v.last().prevs.last()).unwrap(), (v.len() - 1) as nat),
        )
    }
}

/// The nodes visited by a pre-order walk from `i`.
pub open spec fn walk_from(edges: Seq<(nat, nat)>, n: nat, i: nat) -> Seq<nat>
    decreases n - i, 1nat, 0nat,
{
    if i >= n {
        Seq::<nat>::empty()
    } else {
        seq![i] + walk_list(edges, n, i, children_of(edges, i))
    }
}

/// The nodes visited by pre-order walks from each child in `cs` of `parent`.
pub open spec fn walk_list(edges: Seq<(nat, nat)>, n: nat, parent: nat, cs: Seq<nat>) -> Seq<nat>
    decreases n - parent, 0nat, cs.len(),
{
    if cs.len() == 0 {
        Seq::<nat>::empty()
    } else if parent < cs.last() && cs.last() < n {
        walk_list(edges, n, parent, cs.drop_last()) + walk_from(edges, n, cs.last())
    } else {
        walk_list(edges, n, parent, cs.drop_last())
    }
}

/// The transactions of `v` at the positions `idx`.
pub open spec fn at_positions(v: Seq<TransactionView>, idx: Seq<nat>) -> Seq<TransactionView> {
    idx.map_values(|j: nat| v[j as int])
}

pub open spec fn tx_views(v: Seq<Transaction>) -> Seq<TransactionView> {
    v.map_values(|t: Transaction| t@)
}

/// Why a transaction was not inserted, or a stored graph not read.
#[derive(Debug)]
pub enum GraphError {
    /// A transaction with this id is already present.
    DuplicateTransaction,
    /// The graph already has a root.
    RootAlreadyPresent,
    /// This parent is not present.
    MissingParent(crate::hash::Hash),
    /// The graph holds as many transactions as it can.
    CapacityExceeded,
    /// The transaction's bytes are not UTF-8 text.
    NotText,
    /// A stored transaction does not parse.
    Parse(ParseError),
}

impl View for GraphError {
    type V = GraphFailure;

    open spec fn view(&self) -> GraphFailure {
        match self {
            GraphError::DuplicateTransaction => GraphFailure::DuplicateTransaction,
            GraphError::RootAlreadyPresent => GraphFailure::RootAlreadyPresent,
            GraphError::MissingParent(h) => GraphFailure::MissingParent(h@),
            GraphError::CapacityExceeded => GraphFailure::CapacityExceeded,
            GraphError::NotText => GraphFailure::NotText,
            GraphError::Parse(e) => GraphFailure::Parse(e@),
        }
    }
}

/// The persisted record of one transaction.
pub struct StoredNode {
    pub ordinal: u32,
    pub tx_id: crate::hash::Hash,
    pub tx_data: String,
}

pub struct StoredNodeView {
    pub ordinal: u32,
    pub tx_id: Seq<u8>,
    pub tx_data: Seq<char>,
}

impl View for StoredNode {
    type V = StoredNodeView;

    open spec fn view(&self) -> StoredNodeView {
        StoredNodeView { ordinal: self.ordinal, tx_id: self.tx_id@, tx_data: self.tx_data@ }
    }
}

pub open spec fn records_view(rs: Seq<StoredNode>) -> Seq<StoredNodeView> {
    rs.map_values(|r: StoredNode| r@)
}

/// The ordinals of `rs` are `0..rs.len()`, each once.
pub open spec fn ordinals_ok(rs: Seq<StoredNodeView>) -> bool {
    &&& forall|j: int| 0 <= j < rs.len() ==> (rs[j].ordinal as int) < rs.len()
    &&& forall|j: int, k: int|
        0 <= j < rs.len() && 0 <= k < rs.len() && j != k ==> rs[j].ordinal != rs[k].ordinal
    &&& forall|i: int| 0 <= i < rs.len() ==> #[trigger] has_ordinal(rs, i)
}

/// Some record of `rs` has ordinal `i`.
pub open spec fn has_ordinal(rs: Seq<StoredNodeView>, i: int) -> bool {
    exists|j: int| 0 <= j < rs.len() && rs[j].ordinal == i
}

/// Record `j` comes before record `k`: a smaller ordinal, or the same
/// ordinal and an earlier position.
pub open spec fn reads_before(rs: Seq<StoredNodeView>, j: int, k: int) -> bool {
    rs[j].ordinal < rs[k].ordinal || (rs[j].ordinal == rs[k].ordinal && j < k)
}

/// Record `j` is the first of those not in `used`.
pub open spec fn is_next(rs: Seq<StoredNodeView>, used: Seq<int>, j: int) -> bool {
    &&& 0 <= j < rs.len()
    &&& !used.contains(j)
    &&& forall|k: int| 0 <= k < rs.len() && !used.contains(k) && k != j ==> reads_before(rs, j, k)
}

/// The first record not in `used`.
pub open spec fn next_record(rs: Seq<StoredNodeView>, used: Seq<int>) -> int {
    choose|j: int| is_next(rs, used, j)
}

/// The positions of the first `m` records in ascending ordinal order, ties in
/// stored order.
pub open spec fn read_order(rs: Seq<StoredNodeView>, m: nat) -> Seq<int>
    decreases m,
{
    if m == 0 {
        Seq::<int>::empty()
    } else {
        let used = read_order(rs, (m - 1) as nat);
        used.push(next_record(rs, used))
    }
}

/// The transactions of the first `k` records in ordinal order, or the first
/// parse failure.
pub open spec fn decoded_prefix(rs: Seq<StoredNodeView>, k: nat) -> Result<Seq<TransactionView>, ParseFailure>
    decreases k,
{
    if k == 0 {
        Ok(Seq::<TransactionView>::empty())
    } else {
        match decoded_prefix(rs, (k - 1) as nat) {
            Err(e) => Err(e),
            Ok(w) => {
                let j = next_record(rs, read_order(rs, (k - 1) as nat));
                match decode(vstd::utf8::encode_utf8(rs[j].tx_data)) {
                    Err(e) => Err(e),
                    Ok(t) => Ok(w.push(t)),
                }
            },
        }
    }
}

/// The graph that the stored records `rs` describe: the records sorted by
/// ordinal, parsed, and inserted in that order.
pub open spec fn open_spec(rs: Seq<StoredNodeView>) -> Result<Seq<TransactionView>, GraphFailure> {
    match decoded_prefix(rs, rs.len()) {
        Err(e) => Err(GraphFailure::Parse(e)),
        Ok(ts) => replay(ts),
    }
}

/// At most one record is next.
proof fn lemma_next_unique(rs: Seq<StoredNodeView>, used: Seq<int>, j: int)
    requires
        is_next(rs, used, j),
    ensures
        next_record(rs, used) == j,
{
    let c = next_record(rs, used);
    assert(is_next(rs, used, c));
    if c != j {
        assert(reads_before(rs, j, c));
        assert(reads_before(rs, c, j));
    }
}

/// Fewer than `n` distinct values below `n` leave one out.
proof fn lemma_one_left(s: Seq<int>, n: int)
    requires
        s.no_duplicates(),
        forall|i: int| 0 <= i < s.len() ==> 0 <= #[trigger] s[i] < n,
        s.len() < n,
    ensures
        exists|k: int| 0 <= k < n && !s.contains(k),
    decreases n,
{
    if s.contains(n - 1) {
        let idx = choose|i: int| 0 <= i < s.len() && s[i] == n - 1;
        let t = s.remove(idx);
        assert forall|i: int| 0 <= i < t.len() implies 0 <= #[trigger] t[i] < n - 1 by {
            if i < idx {
                assert(t[i] == s[i]);
            } else {
                assert(t[i] == s[i + 1]);
            }
        }
        assert forall|i: int, j: int| 0 <= i < t.len() && 0 <= j < t.len() && i != j implies t[i] != t[j] by {
            let si = if i < idx { i } else { i + 1 };
            let sj = if j < idx { j } else { j + 1 };
            assert(t[i] == s[si] && t[j] == s[sj]);
        }
        lemma_one_left(t, n - 1);
        let k = choose|k: int| 0 <= k < n - 1 && !t.contains(k);
        if s.contains(k) {
            let i = choose|i: int| 0 <= i < s.len() && s[i] == k;
            if i < idx {
                assert(t[i] == k);
            } else {
                assert(i != idx);
                assert(t[i - 1] == k);
            }
        }
    }
}

// ---------------------------------------------------------------- lemmas

/// A found position holds the id; no position means no transaction has it.
pub proof fn lemma_index_of(v: Seq<TransactionView>, id: Seq<u8>)
    ensures
        match index_of(v, id) {
            Some(j) => j < v.len() && v[j as int].id == id && forall|k: int| 0 <= k < j ==> v[k].id != id,
            None => forall|k: int| 0 <= k < v.len() ==> v[k].id != id,
        },
    decreases v.len(),
{
    if v.len() > 0 {
        let w = v.drop_last();
        lemma_index_of(w, id);
        match index_of(w, id) {
            Some(j) => {
                assert(v[j as int] == w[j as int]);
                assert forall|k: int| 0 <= k < j implies v[k].id != id by {
                    assert(v[k] == w[k]);
                }
            },
            None => {
                assert forall|k: int| 0 <= k < v.len() - 1 implies v[k].id != id by {
                    assert(v[k] == w[k]);
                }
            },
        }
    }
}

/// Positions found in a prefix are kept in the whole sequence.
proof fn lemma_index_of_prefix(v: Seq<TransactionView>, k: int, id: Seq<u8>)
    requires
        0 <= k <= v.len(),
        index_of(v.subrange(0, k), id) is Some,
    ensures
        index_of(v, id) == index_of(v.subrange(0, k), id),
    decreases v.len(),
{
    if k < v.len() {
        assert(v.drop_last().subrange(0, k) =~= v.subrange(0, k));
        lemma_index_of_prefix(v.drop_last(), k, id);
    } else {
        assert(v.subrange(0, k) =~= v);
    }
}

/// No parent is missing exactly when every parent is present.
proof fn lemma_first_missing(v: Seq<TransactionView>, ps: Seq<Seq<u8>>)
    ensures
        first_missing(v, ps) is None <==> forall|k: int| 0 <= k < ps.len() ==> index_of(v, ps[k]) is Some,
    decreases ps.len(),
{
    if ps.len() > 0 {
        lemma_first_missing(v, ps.drop_first());
        if first_missing(v, ps) is None {
            assert forall|k: int| 0 <= k < ps.len() implies index_of(v, ps[k]) is Some by {
                if k > 0 {
                    assert(ps[k] == ps.drop_first()[k - 1]);
                }
            }
        }
        if forall|k: int| 0 <= k < ps.len() ==> index_of(v, ps[k]) is Some {
            assert(index_of(v, ps[0]) is Some);
            assert forall|k: int| 0 <= k < ps.drop_first().len() implies index_of(v, ps.drop_first()[k]) is Some by {
                assert(ps.drop_first()[k] == ps[k + 1]);
            }
        }
    }
}

/// A graph's prefixes are graphs, and its last transaction was a valid insertion.
pub proof fn lemma_replay_prefix(v: Seq<TransactionView>)
    requires
        replay(v) == Ok::<Seq<TransactionView>, GraphFailure>(v),
        v.len() > 0,
    ensures
        replay(v.drop_last()) == Ok::<Seq<TransactionView>, GraphFailure>(v.drop_last()),
        add_spec(v.drop_last(), v.last()) == Ok::<Seq<TransactionView>, GraphFailure>(v),
{
    let w = replay(v.drop_last())->Ok_0;
    assert(add_spec(w, v.last()) == Ok::<Seq<TransactionView>, GraphFailure>(v));
    assert(w.push(v.last()) == v);
    assert(w =~= v.drop_last());
}

/// Every edge of a graph goes from an earlier transaction to a later one, and
/// edge `k` ends at transaction `k + 1`.
pub proof fn lemma_tree_edges(v: Seq<TransactionView>)
    requires
        replay(v) == Ok::<Seq<TransactionView>, GraphFailure>(v),
    ensures
        tree_edges(v).len() == if v.len() == 0 { 0 } else { v.len() - 1 },
        forall|k: int| 0 <= k < tree_edges(v).len() ==> tree_edges(v)[k].1 == k + 1 && tree_edges(v)[k].0 < tree_edges(v)[k].1,
    decreases v.len(),
{
    if v.len() > 1 {
        lemma_replay_prefix(v);
        lemma_tree_edges(v.drop_last());
        let w = v.drop_last();
        let t = v.last();
        lemma_first_missing(w, t.prevs);
        if t.prevs.len() == 0 {
            assert(w.len() > 0);
        }
        assert(index_of(w, t.prevs.last()) is Some);
        lemma_index_of(w, t.prevs.last());
    }
}

/// A graph holds at most `MAX_TRANSACTIONS` transactions.
proof fn lemma_replay_bounded(v: Seq<TransactionView>)
    requires
        replay(v) == Ok::<Seq<TransactionView>, GraphFailure>(v),
    ensures
        v.len() <= MAX_TRANSACTIONS,
    decreases v.len(),
{
    if v.len() > 0 {
        lemma_replay_prefix(v);
        lemma_replay_bounded(v.drop_last());
    }
}

/// Edge `k` ends at node `k + 1` and starts at an earlier node, for `n` nodes.
pub open spec fn tree_like(edges: Seq<(nat, nat)>, n: nat) -> bool {
    &&& n > 0
    &&& edges.len() == n - 1
    &&& forall|k: int| 0 <= k < edges.len() ==> (#[trigger] edges[k]).1 == k + 1 && edges[k].0 < edges[k].1
}

/// `i` is `x` or an ancestor of `x`, following each node's one incoming edge.
pub open spec fn descends(edges: Seq<(nat, nat)>, x: nat, i: nat) -> bool
    decreases x,
{
    if x == i {
        true
    } else if x == 0 || x > edges.len() || edges[x - 1].0 >= x {
        false
    } else {
        descends(edges, edges[x - 1].0, i)
    }
}

proof fn lemma_descends_le(edges: Seq<(nat, nat)>, x: nat, i: nat)
    requires
        descends(edges, x, i),
    ensures
        i <= x,
    decreases x,
{
    if x != i {
        lemma_descends_le(edges, edges[x - 1].0, i);
    }
}

proof fn lemma_descends_trans(edges: Seq<(nat, nat)>, x: nat, y: nat, i: nat)
    requires
        descends(edges, x, y),
        descends(edges, y, i),
    ensures
        descends(edges, x, i),
    decreases x,
{
    if x != y {
        lemma_descends_trans(edges, edges[x - 1].0, y, i);
    }
}

proof fn lemma_descends_chain(edges: Seq<(nat, nat)>, x: nat, a: nat, b: nat)
    requires
        descends(edges, x, a),
        descends(edges, x, b),
    ensures
        descends(edges, a, b) || descends(edges, b, a),
    decreases x,
{
    if x != a && x != b {
        lemma_descends_chain(edges, edges[x - 1].0, a, b);
    }
}

/// A proper descendant of `i` descends from a child of `i`.
proof fn lemma_descends_child(edges: Seq<(nat, nat)>, x: nat, i: nat)
    requires
        descends(edges, x, i),
        x != i,
    ensures
        exists|c: nat| 1 <= c <= edges.len() && edges[c - 1].0 == i && c <= x && #[trigger] descends(edges, x, c),
    decreases x,
{
    let p = edges[x - 1].0;
    if p == i {
        assert(descends(edges, x, x));
    } else {
        assert(descends(edges, p, i));
        lemma_descends_child(edges, p, i);
        let c = choose|c: nat| 1 <= c <= edges.len() && edges[c - 1].0 == i && c <= p && #[trigger] descends(edges, p, c);
        assert(descends(edges, p, p));
        assert(descends(edges, x, p));
        lemma_descends_trans(edges, x, p, c);
    }
}

/// The children of `p` are the ends of the edges from `p`, each once.
proof fn lemma_children_of(edges: Seq<(nat, nat)>, p: nat)
    requires
        forall|k: int| 0 <= k < edges.len() ==> (#[trigger] edges[k]).1 == k + 1,
    ensures
        children_of(edges, p).no_duplicates(),
        forall|c: nat| children_of(edges, p).contains(c) <==> (1 <= c <= edges.len() && edges[c - 1].0 == p),
    decreases edges.len(),
{
    if edges.len() > 0 {
        let w = edges.drop_last();
        let len = edges.len();
        assert forall|k: int| 0 <= k < w.len() implies (#[trigger] w[k]).1 == k + 1 by {
            assert(w[k] == edges[k]);
        }
        lemma_children_of(w, p);
        let cw = children_of(w, p);
        let s = children_of(edges, p);
        assert(edges[len - 1] == edges.last());
        assert(edges.last().1 == len);
        assert forall|c: nat| cw.contains(c) implies 1 <= c < len by {}
        if edges.last().0 == p {
            assert(s == seq![len as nat] + cw);
            assert forall|c: nat| s.contains(c) <==> (1 <= c <= len && edges[c - 1].0 == p) by {
                if 1 <= c < len {
                    assert(w[c - 1] == edges[c - 1]);
                }
                if s.contains(c) {
                    let j = choose|j: int| 0 <= j < s.len() && s[j] == c;
                    if j > 0 {
                        assert(cw[j - 1] == c);
                        assert(cw.contains(c));
                    }
                }
                if 1 <= c <= len && edges[c - 1].0 == p {
                    if c == len {
                        assert(s[0] == c);
                    } else {
                        assert(cw.contains(c));
                        let j = choose|j: int| 0 <= j < cw.len() && cw[j] == c;
                        assert(s[j + 1] == c);
                    }
                }
            }
            assert(!cw.contains(len as nat));
            assert forall|i: int, j: int| 0 <= i < s.len() && 0 <= j < s.len() && i != j implies s[i] != s[j] by {
                if i > 0 && j > 0 {
                    assert(s[i] == cw[i - 1] && s[j] == cw[j - 1]);
                } else if i == 0 {
                    assert(s[j] == cw[j - 1]);
                    assert(cw.contains(s[j]));
                } else {
                    assert(s[i] == cw[i - 1]);
                    assert(cw.contains(s[i]));
                }
            }
        } else {
            assert(s == cw);
            assert forall|c: nat| s.contains(c) <==> (1 <= c <= len && edges[c - 1].0 == p) by {
                if 1 <= c < len {
                    assert(w[c - 1] == edges[c - 1]);
                }
            }
        }
    }
}

proof fn lemma_walk_from_members(edges: Seq<(nat, nat)>, n: nat, i: nat)
    requires
        tree_like(edges, n),
        i < n,
    ensures
        walk_from(edges, n, i).no_duplicates(),
        forall|x: nat| #[trigger] walk_from(edges, n, i).contains(x) <==> (x < n && descends(edges, x, i)),
    decreases n - i, 1nat, 0nat,
{
    let cs = children_of(edges, i);
    lemma_children_of(edges, i);
    assert forall|j: int| 0 <= j < cs.len() implies i < #[trigger] cs[j] && cs[j] < n && edges[cs[j] - 1].0 == i by {
        assert(cs.contains(cs[j]));
        assert(1 <= cs[j] <= edges.len() && edges[cs[j] - 1].0 == i);
        assert(edges[cs[j] - 1].1 == cs[j]);
    }
    lemma_walk_list_members(edges, n, i, cs);
    let tail = walk_list(edges, n, i, cs);
    let w = walk_from(edges, n, i);
    assert(w == seq![i] + tail);
    assert forall|x: nat| w.contains(x) <==> (x < n && descends(edges, x, i)) by {
        if x == i {
            assert(w[0] == i);
        } else {
            if w.contains(x) {
                let j = choose|j: int| 0 <= j < w.len() && w[j] == x;
                assert(tail[j - 1] == x);
                assert(tail.contains(x));
                let c = choose|c: nat| cs.contains(c) && descends(edges, x, c);
                assert(1 <= c <= edges.len() && edges[c - 1].0 == i);
                assert(edges[c - 1].1 == c);
                assert(descends(edges, i, i));
                assert(descends(edges, c, i));
                lemma_descends_trans(edges, x, c, i);
                if x != c {
                    assert(x <= edges.len());
                }
            }
            if x < n && descends(edges, x, i) {
                lemma_descends_child(edges, x, i);
                let c = choose|c: nat| 1 <= c <= edges.len() && edges[c - 1].0 == i && c <= x && #[trigger] descends(edges, x, c);
                assert(cs.contains(c));
                assert(tail.contains(x));
                let j = choose|j: int| 0 <= j < tail.len() && tail[j] == x;
                assert(w[j + 1] == x);
            }
        }
    }
    assert(!tail.contains(i)) by {
        if tail.contains(i) {
            let c = choose|c: nat| cs.contains(c) && descends(edges, i, c);
            let j = choose|j: int| 0 <= j < cs.len() && cs[j] == c;
            lemma_descends_le(edges, i, c);
        }
    }
    vstd::seq_lib::lemma_no_dup_in_concat(seq![i], tail);
}

proof fn lemma_walk_list_members(edges: Seq<(nat, nat)>, n: nat, p: nat, cs: Seq<nat>)
    requires
        tree_like(edges, n),
        p < n,
        cs.no_duplicates(),
        forall|j: int| 0 <= j < cs.len() ==> p < #[trigger] cs[j] && cs[j] < n && edges[cs[j] - 1].0 == p,
    ensures
        walk_list(edges, n, p, cs).no_duplicates(),
        forall|x: nat| walk_list(edges, n, p, cs).contains(x) <==> exists|c: nat| cs.contains(c) && #[trigger] descends(edges, x, c),
    decreases n - p, 0nat, cs.len(),
{
    if cs.len() == 0 {
        assert forall|x: nat| walk_list(edges, n, p, cs).contains(x) <==> exists|c: nat| cs.contains(c) && #[trigger] descends(edges, x, c) by {
            if exists|c: nat| cs.contains(c) && #[trigger] descends(edges, x, c) {
                let c = choose|c: nat| cs.contains(c) && #[trigger] descends(edges, x, c);
                let j = choose|j: int| 0 <= j < cs.len() && cs[j] == c;
            }
        }
    } else {
        let front = cs.drop_last();
        let last = cs.last();
        assert(cs[cs.len() - 1] == last);
        assert forall|j: int| 0 <= j < front.len() implies p < #[trigger] front[j] && front[j] < n && edges[front[j] - 1].0 == p by {
            assert(front[j] == cs[j]);
        }
        lemma_walk_list_members(edges, n, p, front);
        lemma_walk_from_members(edges, n, last);
        let a = walk_list(edges, n, p, front);
        let b = walk_from(edges, n, last);
        assert(walk_list(edges, n, p, cs) == a + b);
        assert forall|x: nat| (a + b).contains(x) <==> exists|c: nat| cs.contains(c) && #[trigger] descends(edges, x, c) by {
            if (a + b).contains(x) {
                let j = choose|j: int| 0 <= j < (a + b).len() && (a + b)[j] == x;
                if j < a.len() {
                    assert(a[j] == x);
                    assert(a.contains(x));
                    let c = choose|c: nat| front.contains(c) && #[trigger] descends(edges, x, c);
                    let k = choose|k: int| 0 <= k < front.len() && front[k] == c;
                    assert(cs[k] == c);
                } else {
                    assert(b[j - a.len()] == x);
                    assert(b.contains(x));
                    assert(descends(edges, x, last));
                    assert(cs.contains(last));
                }
            }
            if exists|c: nat| cs.contains(c) && #[trigger] descends(edges, x, c) {
                let c = choose|c: nat| cs.contains(c) && #[trigger] descends(edges, x, c);
                let k = choose|k: int| 0 <= k < cs.len() && cs[k] == c;
                if k < cs.len() - 1 {
                    assert(front[k] == c);
                    assert(front.contains(c));
                    assert(a.contains(x));
                    let j = choose|j: int| 0 <= j < a.len() && a[j] == x;
                    assert((a + b)[j] == x);
                } else {
                    if x != c {
                        assert(x <= edges.len());
                    }
                    assert(c == last);
                    assert(b.contains(x));
                    let j = choose|j: int| 0 <= j < b.len() && b[j] == x;
                    assert((a + b)[j + a.len()] == x);
                }
            }
        }
        assert forall|i: int, j: int| 0 <= i < a.len() && 0 <= j < b.len() implies a[i] != b[j] by {
            if a[i] == b[j] {
                let x = a[i];
                assert(a.contains(x));
                assert(b.contains(x));
                let c = choose|c: nat| front.contains(c) && #[trigger] descends(edges, x, c);
                let k = choose|k: int| 0 <= k < front.len() && front[k] == c;
                assert(cs[k] == c);
                assert(c != last);
                lemma_descends_chain(edges, x, c, last);
                if descends(edges, c, last) {
                    lemma_descends_le(edges, edges[c - 1].0, last);
                } else {
                    lemma_descends_le(edges, edges[last - 1].0, c);
                }
            }
        }
        vstd::seq_lib::lemma_no_dup_in_concat(a, b);
    }
}

proof fn lemma_descends_root(edges: Seq<(nat, nat)>, n: nat, x: nat)
    requires
        tree_like(edges, n),
        x < n,
    ensures
        descends(edges, x, 0),
    decreases x,
{
    if x > 0 {
        assert(edges[x - 1].1 == x);
        lemma_descends_root(edges, n, edges[x - 1].0);
    }
}

/// The pre-order walk from the root visits every transaction of a graph
/// exactly once.
pub proof fn lemma_walk_visits_each_once(v: Seq<TransactionView>)
    requires
        replay(v) == Ok::<Seq<TransactionView>, GraphFailure>(v),
    ensures
        walk_from(tree_edges(v), v.len(), 0).no_duplicates(),
        forall|x: nat| walk_from(tree_edges(v), v.len(), 0).contains(x) <==> x < v.len(),
{
    let edges = tree_edges(v);
    let n = v.len();
    if n > 0 {
        lemma_tree_edges(v);
        lemma_walk_from_members(edges, n, 0);
        assert(walk_from(edges, n, 0).no_duplicates());
        assert forall|x: nat| walk_from(edges, n, 0).contains(x) <==> x < n by {
            if x < n {
                lemma_descends_root(edges, n, x);
                assert(descends(edges, x, 0));
            }
            assert(walk_from(edges, n, 0).contains(x) <==> (x < n && descends(edges, x, 0)));
        }
    }
}

/// A failure in a prefix is the failure of the whole sequence.
proof fn lemma_replay_error(v: Seq<TransactionView>, k: int)
    requires
        0 <= k <= v.len(),
        replay(v.subrange(0, k)) is Err,
    ensures
        replay(v) == replay(v.subrange(0, k)),
    decreases v.len(),
{
    if k < v.len() {
        assert(v.drop_last().subrange(0, k) =~= v.subrange(0, k));
        lemma_replay_error(v.drop_last(), k);
    } else {
        assert(v.subrange(0, k) =~= v);
    }
}

/// Ids are unique in a graph.
pub proof fn lemma_unique_ids(v: Seq<TransactionView>)
    requires
        replay(v) == Ok::<Seq<TransactionView>, GraphFailure>(v),
    ensures
        forall|i: int, j: int| 0 <= i < v.len() && 0 <= j < v.len() && i != j ==> v[i].id != v[j].id,
    decreases v.len(),
{
    if v.len() > 0 {
        lemma_replay_prefix(v);
        lemma_unique_ids(v.drop_last());
        lemma_index_of(v.drop_last(), v.last().id);
        assert forall|i: int, j: int| 0 <= i < v.len() && 0 <= j < v.len() && i != j implies v[i].id != v[j].id by {
            if i < v.len() - 1 && j < v.len() - 1 {
                assert(v[i] == v.drop_last()[i] && v[j] == v.drop_last()[j]);
            } else if i < v.len() - 1 {
                assert(v[i] == v.drop_last()[i]);
            } else {
                assert(v[j] == v.drop_last()[j]);
            }
        }
    }
}

/// A graph has at most one root: the transaction at position 0.
pub proof fn lemma_single_root(v: Seq<TransactionView>)
    requires
        replay(v) == Ok::<Seq<TransactionView>, GraphFailure>(v),
    ensures
        forall|i: int| 0 <= i < v.len() ==> (v[i].prevs.len() == 0 <==> i == 0),
    decreases v.len(),
{
    if v.len() > 0 {
        lemma_replay_prefix(v);
        lemma_single_root(v.drop_last());
        let w = v.drop_last();
        let t = v.last();
        if t.prevs.len() > 0 && w.len() == 0 {
            lemma_first_missing(w, t.prevs);
            assert(index_of(w, t.prevs[0]) is Some);
        }
        assert forall|i: int| 0 <= i < v.len() implies (v[i].prevs.len() == 0 <==> i == 0) by {
            if i < v.len() - 1 {
                assert(v[i] == w[i]);
            }
        }
    }
}

/// Every parent of every transaction of a graph is in the graph, at an
/// earlier position.
pub proof fn lemma_parents_present(v: Seq<TransactionView>)
    requires
        replay(v) == Ok::<Seq<TransactionView>, GraphFailure>(v),
    ensures
        forall|i: int, k: int|
            #![trigger v[i].prevs[k]]
            0 <= i < v.len() && 0 <= k < v[i].prevs.len() ==> match index_of(v, v[i].prevs[k]) {
                Some(j) => j < i,
                None => false,
            },
    decreases v.len(),
{
    if v.len() > 0 {
        lemma_replay_prefix(v);
        lemma_parents_present(v.drop_last());
        let w = v.drop_last();
        let t = v.last();
        lemma_first_missing(w, t.prevs);
        assert forall|i: int, k: int| #![trigger v[i].prevs[k]] 0 <= i < v.len() && 0 <= k < v[i].prevs.len() implies match index_of(v, v[i].prevs[k]) {
            Some(j) => j < i,
            None => false,
        } by {
            let id = v[i].prevs[k];
            if i < v.len() - 1 {
                assert(v[i] == w[i]);
            }
            assert(index_of(w, id) is Some);
            lemma_index_of(w, id);
            assert(w =~= v.drop_last());
        }
    }
}

// ---------------------------------------------------------------- the graph

/// A DAG of transactions kept in insertion order; node `i` holds the `i`-th
/// inserted transaction.
pub struct Graph {
    dag: DagStore,
    txs: Vec<Transaction>,
}

impl View for Graph {
    type V = Seq<TransactionView>;

    closed spec fn view(&self) -> Seq<TransactionView> {
        tx_views(self.txs@)
    }
}

impl Graph {
    /// The transactions are those of a sequence of valid insertions, and the
    /// DAG holds one node per transaction and the edges they call for.
    pub closed spec fn wf(&self) -> bool {
        &&& replay(self@) == Ok::<Seq<TransactionView>, GraphFailure>(self@)
        &&& dag_node_count(self.dag) == self@.len()
        &&& dag_edges(self.dag) == tree_edges(self@)
    }

    /// The edges of the graph.
    pub closed spec fn edges(&self) -> Seq<(nat, nat)> {
        dag_edges(self.dag)
    }

    /// The edges are those that the transactions call for.
    pub proof fn lemma_wf(&self)
        requires
            self.wf(),
        ensures
            replay(self@) == Ok::<Seq<TransactionView>, GraphFailure>(self@),
            self.edges() == tree_edges(self@),
    {
    }

    /// Every graph, at all times, has unique ids, at most one root (the
    /// transaction at position 0), and every parent of every transaction
    /// present at an earlier position.
    pub proof fn lemma_invariants(&self)
        requires
            self.wf(),
        ensures
            forall|i: int, j: int|
                0 <= i < self@.len() && 0 <= j < self@.len() && i != j ==> self@[i].id != self@[j].id,
            forall|i: int| 0 <= i < self@.len() ==> (self@[i].prevs.len() == 0 <==> i == 0),
            forall|i: int, k: int|
                #![trigger self@[i].prevs[k]]
                0 <= i < self@.len() && 0 <= k < self@[i].prevs.len() ==> match index_of(self@, self@[i].prevs[k]) {
                    Some(j) => j < i,
                    None => false,
                },
    {
        lemma_unique_ids(self@);
        lemma_single_root(self@);
        lemma_parents_present(self@);
    }

    /// An empty graph.
    pub fn new() -> (r: Graph)
        ensures
            r.wf(),
            r@ == Seq::<TransactionView>::empty(),
    {
        let r = Graph { dag: empty_dag(), txs: Vec::new() };
        assert(r@ =~= Seq::<TransactionView>::empty());
        r
    }

    /// The number of transactions.
    pub fn len(&self) -> (r: usize)
        ensures
            r == self@.len(),
    {
        self.txs.len()
    }

    /// The transaction inserted `i`-th.
    pub fn transaction(&self, i: usize) -> (r: &Transaction)
        requires
            i < self@.len(),
        ensures
            r@ == self@[i as int],
    {
        &self.txs[i]
    }

    /// The record to persist for the transaction inserted `i`-th; `None`
    /// when its bytes are not UTF-8 text.
    pub fn record(&self, i: usize) -> (r: Option<StoredNode>)
        requires
            self.wf(),
            i < self@.len(),
        ensures
            match r {
                Some(rec) => rec.ordinal as int == i && rec.tx_id@ == self@[i as int].id
                    && vstd::utf8::encode_utf8(rec.tx_data@) == self@[i as int].data,
                None => !vstd::utf8::valid_utf8(self@[i as int].data),
            },
    {
        proof {
            lemma_replay_bounded(self@);
        }
        let tx = &self.txs[i];
        match utf8_text(tx.data.as_slice()) {
            Some(text) => {
                proof {
                    vstd::utf8::decode_utf8_encode_utf8(tx@.data);
                }
                Some(StoredNode { ordinal: i as u32, tx_id: tx.id.duplicate(), tx_data: text.to_owned() })
            },
            None => None,
        }
    }

    /// The root: the first transaction inserted, if any.
    pub fn root(&self) -> (r: Option<&Transaction>)
        ensures
            match r {
                Some(t) => self@.len() > 0 && t@ == self@[0],
                None => self@.len() == 0,
            },
    {
        if self.txs.len() > 0 {
            Some(&self.txs[0])
        } else {
            None
        }
    }

    /// The position of the transaction with id `id`, if present.
    pub fn find(&self, id: &crate::hash::Hash) -> (r: Option<u32>)
        requires
            self.wf(),
        ensures
            match r {
                Some(i) => index_of(self@, id@) == Some(i as nat),
                None => index_of(self@, id@) is None,
            },
    {
        let ghost v = self@;
        let mut i: usize = 0;
        while i < self.txs.len()
            invariant
                0 <= i <= self.txs@.len(),
                v == self@,
                v.len() == self.txs@.len(),
                v.len() < 0xFFFF_FFFF,
                index_of(v.subrange(0, i as int), id@) is None,
            decreases self.txs@.len() - i,
        {
            let ghost prefix = v.subrange(0, i + 1);
            assert(prefix.drop_last() =~= v.subrange(0, i as int));
            if self.txs[i].id.equals(id) {
                proof {
                    lemma_index_of_prefix(v, i + 1, id@);
                }
                return Some(i as u32);
            }
            i = i + 1;
        }
        assert(v.subrange(0, i as int) =~= v);
        None
    }

    /// The transaction with id `id`, if present.
    pub fn get(&self, id: &crate::hash::Hash) -> (r: Option<&Transaction>)
        requires
            self.wf(),
        ensures
            match r {
                Some(t) => index_of(self@, id@) is Some && t@ == self@[index_of(self@, id@).unwrap() as int],
                None => index_of(self@, id@) is None,
            },
    {
        match self.find(id) {
            Some(i) => {
                proof {
                    lemma_index_of(self@, id@);
                }
                Some(&self.txs[i as usize])
            },
            None => None,
        }
    }
}

impl Graph {
    /// Inserts `tx` without persisting it; returns its position.
    fn add_local(&mut self, tx: Transaction) -> (r: Result<u32, GraphError>)
        requires
            old(self).wf(),
        ensures
            final(self).wf(),
            match (r, add_spec(old(self)@, tx@)) {
                (Ok(i), Ok(v)) => final(self)@ == v && i as nat == old(self)@.len(),
                (Err(e), Err(f)) => e@ == f && final(self)@ == old(self)@,
                _ => false,
            },
    {
        let ghost v = self@;
        proof {
            lemma_tree_edges(v);
        }
        if self.find(&tx.id).is_some() {
            return Err(GraphError::DuplicateTransaction);
        }
        if tx.is_root() {
            if self.txs.len() > 0 {
                return Err(GraphError::RootAlreadyPresent);
            }
            let idx = dag_add_node(&mut self.dag);
            self.txs.push(tx);
            proof {
                assert(self@ =~= v.push(tx@));
                assert(self@.drop_last() =~= v);
            }
            return Ok(idx);
        }
        let ghost ps = tx@.prevs;
        let mut parent: u32 = 0;
        let mut i: usize = 0;
        assert(ps.subrange(0, ps.len() as int) =~= ps);
        while i < tx.prevs.len()
            invariant
                self@ == v,
                v == old(self)@,
                self.wf(),
                index_of(v, tx@.id) is None,
                ps.len() > 0,
                ps == tx@.prevs,
                ps.len() == tx.prevs@.len(),
                0 <= i <= ps.len(),
                first_missing(v, ps) == first_missing(v, ps.subrange(i as int, ps.len() as int)),
                i > 0 ==> index_of(v, ps[i - 1]) == Some(parent as nat),
            decreases ps.len() - i,
        {
            let ghost rest = ps.subrange(i as int, ps.len() as int);
            assert(rest.drop_first() =~= ps.subrange(i + 1, ps.len() as int));
            assert(rest[0] == ps[i as int]);
            match self.find(&tx.prevs[i]) {
                Some(p) => {
                    parent = p;
                },
                None => {
                    return Err(GraphError::MissingParent(tx.prevs[i].duplicate()));
                },
            }
            i = i + 1;
        }
        assert(ps.subrange(ps.len() as int, ps.len() as int) =~= Seq::<Seq<u8>>::empty());
        if self.txs.len() >= MAX_TRANSACTIONS {
            return Err(GraphError::CapacityExceeded);
        }
        proof {
            lemma_index_of(v, ps.last());
        }
        let idx = dag_add_node(&mut self.dag);
        let added = dag_add_edge(&mut self.dag, parent, idx);
        assert(added);
        self.txs.push(tx);
        proof {
            assert(self@ =~= v.push(tx@));
            assert(self@.drop_last() =~= v);
        }
        Ok(idx)
    }

    /// Inserts `tx`; returns the record to persist for it.
    pub fn add(&mut self, tx: Transaction) -> (r: Result<StoredNode, GraphError>)
        requires
            old(self).wf(),
        ensures
            final(self).wf(),
            match r {
                Ok(rec) => vstd::utf8::valid_utf8(tx@.data) && add_spec(old(self)@, tx@) == Ok::<Seq<TransactionView>, GraphFailure>(final(self)@)
                    && rec.ordinal as nat == old(self)@.len() && rec.tx_id@ == tx@.id
                    && vstd::utf8::encode_utf8(rec.tx_data@) == tx@.data,
                Err(e) => final(self)@ == old(self)@ && if vstd::utf8::valid_utf8(tx@.data) {
                    add_spec(old(self)@, tx@) == Err::<Seq<TransactionView>, GraphFailure>(e@)
                } else {
                    e@ == GraphFailure::NotText
                },
            },
    {
        let tx_data = match utf8_text(tx.data.as_slice()) {
            Some(text) => text.to_owned(),
            None => {
                return Err(GraphError::NotText);
            },
        };
        proof {
            vstd::utf8::decode_utf8_encode_utf8(tx@.data);
        }
        let tx_id = tx.id.duplicate();
        match self.add_local(tx) {
            Ok(ordinal) => Ok(StoredNode { ordinal, tx_id, tx_data }),
            Err(e) => Err(e),
        }
    }
}

/// Pre-order walks visit positions below `n` only.
proof fn lemma_walk_from_bound(edges: Seq<(nat, nat)>, n: nat, i: nat)
    ensures
        forall|k: int| 0 <= k < walk_from(edges, n, i).len() ==> walk_from(edges, n, i)[k] < n,
    decreases n - i, 1nat, 0nat,
{
    if i < n {
        let cs = children_of(edges, i);
        lemma_walk_list_bound(edges, n, i, cs);
        let tail = walk_list(edges, n, i, cs);
        assert forall|k: int| 0 <= k < walk_from(edges, n, i).len() implies walk_from(edges, n, i)[k] < n by {
            if k > 0 {
                assert(walk_from(edges, n, i)[k] == tail[k - 1]);
            }
        }
    }
}

proof fn lemma_walk_list_bound(edges: Seq<(nat, nat)>, n: nat, parent: nat, cs: Seq<nat>)
    ensures
        forall|k: int| 0 <= k < walk_list(edges, n, parent, cs).len() ==> walk_list(edges, n, parent, cs)[k] < n,
    decreases n - parent, 0nat, cs.len(),
{
    if cs.len() > 0 {
        let head = walk_list(edges, n, parent, cs.drop_last());
        lemma_walk_list_bound(edges, n, parent, cs.drop_last());
        if parent < cs.last() && cs.last() < n {
            let tail = walk_from(edges, n, cs.last());
            lemma_walk_from_bound(edges, n, cs.last());
            assert forall|k: int| 0 <= k < walk_list(edges, n, parent, cs).len() implies walk_list(edges, n, parent, cs)[k] < n by {
                if k < head.len() {
                    assert(walk_list(edges, n, parent, cs)[k] == head[k]);
                } else {
                    assert(walk_list(edges, n, parent, cs)[k] == tail[k - head.len()]);
                }
            }
        }
    }
}

/// Decoding stops at the first record that does not parse.
proof fn lemma_decoded_error(rs: Seq<StoredNodeView>, k: nat, m: nat)
    requires
        k <= m,
        decoded_prefix(rs, k) is Err,
    ensures
        decoded_prefix(rs, m) == decoded_prefix(rs, k),
    decreases m - k,
{
    if k < m {
        lemma_decoded_error(rs, k, (m - 1) as nat);
    }
}

impl Graph {
    /// Appends the positions of a pre-order walk from `i`.
    fn collect(&self, i: u32, out: &mut Vec<u32>)
        requires
            self.wf(),
            (i as nat) < self@.len(),
        ensures
            nats(final(out)@) == nats(old(out)@) + walk_from(tree_edges(self@), self@.len(), i as nat),
        decreases self@.len() - i,
    {
        let ghost edges = tree_edges(self@);
        let ghost n = self@.len();
        let ghost start = nats(out@);
        out.push(i);
        assert(nats(out@) =~= start + seq![i as nat]);
        let cs = dag_children(&self.dag, i);
        let mut k: usize = 0;
        assert(nats(cs@).subrange(0, 0) =~= Seq::<nat>::empty());
        while k < cs.len()
            invariant
                self.wf(),
                edges == tree_edges(self@),
                n == self@.len(),
                (i as nat) < n,
                nats(cs@) == children_of(edges, i as nat),
                0 <= k <= cs@.len(),
                start == nats(old(out)@),
                nats(out@) == start + seq![i as nat] + walk_list(edges, n, i as nat, nats(cs@).subrange(0, k as int)),
            decreases cs@.len() - k,
        {
            let c = cs[k];
            let ghost before = nats(out@);
            let ghost sub = nats(cs@).subrange(0, k + 1);
            assert(sub.drop_last() =~= nats(cs@).subrange(0, k as int));
            assert(sub.last() == c as nat);
            if i < c && (c as usize) < self.txs.len() {
                self.collect(c, out);
            }
            k = k + 1;
        }
        assert(nats(cs@).subrange(0, cs@.len() as int) =~= nats(cs@));
    }

    /// The positions of a pre-order walk from the root, each child after the
    /// children added after it.
    pub fn walk_order(&self) -> (r: Vec<u32>)
        requires
            self.wf(),
        ensures
            nats(r@) == walk_from(tree_edges(self@), self@.len(), 0),
    {
        let mut out: Vec<u32> = Vec::new();
        if self.txs.len() > 0 {
            self.collect(0, &mut out);
        }
        assert(nats(out@) =~= walk_from(tree_edges(self@), self@.len(), 0));
        out
    }

    /// The transactions in the order of a pre-order walk from the root.
    pub fn to_vec(&self) -> (r: Vec<Transaction>)
        requires
            self.wf(),
        ensures
            tx_views(r@) == at_positions(self@, walk_from(tree_edges(self@), self@.len(), 0)),
    {
        let order = self.walk_order();
        proof {
            lemma_walk_from_bound(tree_edges(self@), self@.len(), 0);
        }
        let ghost target = at_positions(self@, nats(order@));
        let mut out: Vec<Transaction> = Vec::new();
        let mut j: usize = 0;
        while j < order.len()
            invariant
                0 <= j <= order@.len(),
                nats(order@) == walk_from(tree_edges(self@), self@.len(), 0),
                forall|k: int| 0 <= k < nats(order@).len() ==> nats(order@)[k] < self@.len(),
                target == at_positions(self@, nats(order@)),
                tx_views(out@) == target.subrange(0, j as int),
            decreases order@.len() - j,
        {
            assert(nats(order@)[j as int] == order@[j as int] as nat);
            let t = self.txs[order[j] as usize].duplicate();
            let ghost before = tx_views(out@);
            assert(target[j as int] == t@);
            out.push(t);
            assert(tx_views(out@) =~= before.push(t@));
            j = j + 1;
            assert(tx_views(out@) =~= target.subrange(0, j as int));
        }
        assert(target.subrange(0, j as int) =~= target);
        out
    }

    /// Reads a graph back from its stored records: the records are sorted
    /// by ordinal, parsed, and inserted one by one.
    pub fn open(records: &Vec<StoredNode>) -> (r: Result<Graph, GraphError>)
        ensures
            match r {
                Ok(g) => g.wf() && open_spec(records_view(records@)) == Ok::<Seq<TransactionView>, GraphFailure>(g@),
                Err(e) => open_spec(records_view(records@)) == Err::<Seq<TransactionView>, GraphFailure>(e@),
            },
    {
        let ghost rs = records_view(records@);
        let n = records.len();
        let mut used: Vec<bool> = Vec::new();
        let mut i: usize = 0;
        while i < n
            invariant
                0 <= i <= n,
                used@.len() == i,
                forall|k: int| 0 <= k < i ==> !used@[k],
            decreases n - i,
        {
            used.push(false);
            i = i + 1;
        }
        let ghost mut order: Seq<int> = Seq::empty();
        let mut txs: Vec<Transaction> = Vec::new();
        let mut m: usize = 0;
        assert(tx_views(txs@) =~= Seq::<TransactionView>::empty());
        assert(rs.len() == n);
        while m < n
            invariant
                n == records@.len(),
                rs == records_view(records@),
                rs.len() == n,
                0 <= m <= n,
                used@.len() == n,
                order == read_order(rs, m as nat),
                order.len() == m,
                order.no_duplicates(),
                forall|i: int| 0 <= i < order.len() ==> 0 <= #[trigger] order[i] < n,
                forall|k: int| 0 <= k < n ==> (used@[k] <==> order.contains(k)),
                txs@.len() == m,
                decoded_prefix(rs, m as nat) == Ok::<Seq<TransactionView>, ParseFailure>(tx_views(txs@)),
            decreases n - m,
        {
            proof {
                lemma_one_left(order, n as int);
            }
            let mut best: usize = n;
            let mut k: usize = 0;
            while k < n
                invariant
                    n == records@.len(),
                    rs == records_view(records@),
                    rs.len() == n,
                    used@.len() == n,
                    0 <= k <= n,
                    best == n || (best < k && !used@[best as int]),
                    best == n ==> forall|i: int| 0 <= i < k ==> used@[i],
                    best < n ==> forall|i: int| 0 <= i < k && !used@[i] && i != best ==> reads_before(rs, best as int, i),
                decreases n - k,
            {
                if !used[k] {
                    assert(rs[k as int] == records@[k as int]@);
                    if best == n || records[k].ordinal < records[best].ordinal {
                        proof {
                            if best < n {
                                assert(rs[best as int] == records@[best as int]@);
                                assert forall|i: int| 0 <= i < k + 1 && !used@[i] && i != k implies reads_before(rs, k as int, i) by {
                                    if i != best {
                                        assert(reads_before(rs, best as int, i));
                                    }
                                }
                            }
                        }
                        best = k;
                    } else {
                        assert(rs[best as int] == records@[best as int]@);
                    }
                }
                k = k + 1;
            }
            if best == n {
                // not reached: fewer than `n` records have been read
                proof {
                    let w = choose|w: int| 0 <= w < n && !order.contains(w);
                    assert(used@[w]);
                }
                return Err(GraphError::CapacityExceeded);
            }
            proof {
                assert(is_next(rs, order, best as int));
                lemma_next_unique(rs, order, best as int);
                assert(rs[best as int] == records@[best as int]@);
            }
            let ghost before = tx_views(txs@);
            match Transaction::parse_unsafe(records[best].tx_data.as_str()) {
                Ok(t) => {
                    txs.push(t);
                    assert(tx_views(txs@) =~= before.push(t@));
                },
                Err(e) => {
                    proof {
                        lemma_decoded_error(rs, (m + 1) as nat, n as nat);
                    }
                    return Err(GraphError::Parse(e));
                },
            }
            let ghost old_used = used@;
            let ghost old_order = order;
            used.set(best, true);
            proof {
                order = order.push(best as int);
                assert forall|k: int| 0 <= k < n implies (used@[k] <==> order.contains(k)) by {
                    if k == best {
                        assert(order[order.len() - 1] == k);
                    } else {
                        assert(used@[k] == old_used[k]);
                        if old_order.contains(k) {
                            let i = choose|i: int| 0 <= i < old_order.len() && old_order[i] == k;
                            assert(order[i] == k);
                        }
                        if order.contains(k) {
                            let i = choose|i: int| 0 <= i < order.len() && order[i] == k;
                            assert(i < old_order.len());
                            assert(old_order[i] == k);
                        }
                    }
                }
            }
            m = m + 1;
        }
        let ghost ts = tx_views(txs@);
        assert(open_spec(rs) == replay(ts));
        let mut g = Graph::new();
        let mut k: usize = 0;
        assert(ts.subrange(0, 0) =~= Seq::<TransactionView>::empty());
        while k < n
            invariant
                n == txs@.len(),
                ts == tx_views(txs@),
                rs == records_view(records@),
                open_spec(rs) == replay(ts),
                0 <= k <= n,
                g.wf(),
                replay(ts.subrange(0, k as int)) == Ok::<Seq<TransactionView>, GraphFailure>(g@),
            decreases n - k,
        {
            let ghost sub = ts.subrange(0, k + 1);
            assert(sub.drop_last() =~= ts.subrange(0, k as int));
            assert(sub.last() == txs@[k as int]@);
            match g.add_local(txs[k].duplicate()) {
                Ok(_) => {},
                Err(e) => {
                    proof {
                        lemma_replay_error(ts, k + 1);
                    }
                    return Err(e);
                },
            }
            k = k + 1;
        }
        assert(ts.subrange(0, n as int) =~= ts);
        Ok(g)
    }
}

/// A graph that has a root refuses every further root.
pub proof fn lemma_root_not_readded(v: Seq<TransactionView>, t: TransactionView)
    requires
        v.len() > 0,
        t.prevs.len() == 0,
    ensures
        add_spec(v, t) is Err,
{
}

/// Reading back the records written for a graph's transactions, in any
/// order, gives the same transactions at the same positions.
pub proof fn lemma_reload_fidelity(g: Seq<TransactionView>, rs: Seq<StoredNodeView>)
    requires
        replay(g) == Ok::<Seq<TransactionView>, GraphFailure>(g),
        forall|i: int| 0 <= i < g.len() ==> decode(#[trigger] g[i].data) == Ok::<TransactionView, ParseFailure>(g[i]),
        rs.len() == g.len(),
        ordinals_ok(rs),
        forall|j: int| 0 <= j < rs.len() ==> vstd::utf8::encode_utf8(#[trigger] rs[j].tx_data) == g[rs[j].ordinal as int].data,
    ensures
        open_spec(rs) == Ok::<Seq<TransactionView>, GraphFailure>(g),
{
    lemma_decoded_all(g, rs, g.len());
    assert(g.subrange(0, g.len() as int) =~= g);
}

/// With the ordinals `0..n`, each once, the `i`-th record read is the one
/// with ordinal `i`.
proof fn lemma_read_order(rs: Seq<StoredNodeView>, m: nat)
    requires
        ordinals_ok(rs),
        m <= rs.len(),
    ensures
        read_order(rs, m).len() == m,
        forall|i: int| 0 <= i < m ==> 0 <= #[trigger] read_order(rs, m)[i] < rs.len()
            && rs[read_order(rs, m)[i]].ordinal == i,
    decreases m,
{
    if m > 0 {
        let used = read_order(rs, (m - 1) as nat);
        lemma_read_order(rs, (m - 1) as nat);
        assert(has_ordinal(rs, m - 1));
        let j = choose|j: int| 0 <= j < rs.len() && rs[j].ordinal == m - 1;
        if used.contains(j) {
            let i = choose|i: int| 0 <= i < used.len() && used[i] == j;
            assert(rs[used[i]].ordinal == i);
        }
        assert forall|k: int| 0 <= k < rs.len() && !used.contains(k) && k != j implies reads_before(rs, j, k) by {
            if rs[k].ordinal < m - 1 {
                let o = rs[k].ordinal as int;
                assert(rs[used[o]].ordinal == o);
                assert(used[o] == k);
            }
        }
        assert(is_next(rs, used, j));
        lemma_next_unique(rs, used, j);
        assert forall|i: int| 0 <= i < m implies 0 <= #[trigger] read_order(rs, m)[i] < rs.len()
            && rs[read_order(rs, m)[i]].ordinal == i by {
            if i < m - 1 {
                assert(read_order(rs, m)[i] == used[i]);
            }
        }
    }
}

proof fn lemma_decoded_all(g: Seq<TransactionView>, rs: Seq<StoredNodeView>, k: nat)
    requires
        k <= g.len(),
        forall|i: int| 0 <= i < g.len() ==> decode(#[trigger] g[i].data) == Ok::<TransactionView, ParseFailure>(g[i]),
        rs.len() == g.len(),
        ordinals_ok(rs),
        forall|j: int| 0 <= j < rs.len() ==> vstd::utf8::encode_utf8(#[trigger] rs[j].tx_data) == g[rs[j].ordinal as int].data,
    ensures
        decoded_prefix(rs, k) == Ok::<Seq<TransactionView>, ParseFailure>(g.subrange(0, k as int)),
    decreases k,
{
    if k == 0 {
        assert(g.subrange(0, 0) =~= Seq::<TransactionView>::empty());
    } else {
        lemma_decoded_all(g, rs, (k - 1) as nat);
        lemma_read_order(rs, k);
        let j = read_order(rs, k)[k - 1];
        assert(j == next_record(rs, read_order(rs, (k - 1) as nat)));
        assert(rs[j].ordinal == k - 1);
        assert(g.subrange(0, k as int) =~= g.subrange(0, k - 1).push(g[k - 1]));
    }
}

} // verus!
