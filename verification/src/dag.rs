//! The graph store and consensus engine: one structure owning the blocks,
//! the directed relations between them, the network-node directory and the
//! adaptively sized k-cluster parameter.
//!
//! Well-formedness ties the whole model together: ids are unique, every
//! stored relation joins existing blocks, every declared parent exists, all
//! confidence scores lie in `[0, 100]`, the cluster size lies in `[5, 50]`,
//! and the relation graph is acyclic. Every mutating operation preserves it;
//! an operation that fails leaves the state exactly as it was.

use vstd::prelude::*;
use vstd::seq_lib::*;
use vstd::set_lib::lemma_set_subset_finite;
use vstd::set_lib::lemma_len_subset;
use vstd::set_lib::lemma_int_range;
use vstd::set_lib::set_int_range;
use crate::types::{Block, BlockV, Edge, EdgeV, Node, NodeV, NodeStatus};
use crate::reach::{
    acyclic, contains_id, creates_cycle, edge_key, edge_views, has_edge, id_views, is_path,
    reaches, rel_map, unique_keys, would_create_cycle, lemma_insert_edge_acyclic,
    lemma_rel_map_contains, lemma_rel_map_index, lemma_rel_map_push, lemma_rel_map_update,
};
use crate::score::{
    beats, beats_exec, compute_confidence, confidence_formula, rank, rank_set,
    lemma_rank_cut_size, lemma_rank_in_range,
};
use crate::Error;

verus! {

/// The spec-level values of a stored block sequence.
pub open spec fn block_views(s: Seq<Block>) -> Seq<BlockV> {
    s.map_values(|b: Block| b@)
}

/// The spec-level values of a stored node sequence.
pub open spec fn node_views(s: Seq<Node>) -> Seq<NodeV> {
    s.map_values(|n: Node| n@)
}

/// Some block in `s` carries the given id.
pub open spec fn has_block_id(s: Seq<BlockV>, id: Seq<char>) -> bool {
    exists|i: int| 0 <= i < s.len() && s[i].id == id
}

/// The position of the block with the given id (unique when ids are).
pub open spec fn block_index_of(s: Seq<BlockV>, id: Seq<char>) -> int {
    choose|i: int| 0 <= i < s.len() && s[i].id == id
}

/// Some node in `s` carries the given id.
pub open spec fn has_peer_id(s: Seq<NodeV>, id: Seq<char>) -> bool {
    exists|i: int| 0 <= i < s.len() && s[i].id == id
}

/// No two blocks share an id.
pub open spec fn unique_block_ids(s: Seq<BlockV>) -> bool {
    forall|i: int, j: int| 0 <= i < s.len() && 0 <= j < s.len() && i != j ==> s[i].id != s[j].id
}

/// No two nodes share an id.
pub open spec fn unique_peer_ids(s: Seq<NodeV>) -> bool {
    forall|i: int, j: int| 0 <= i < s.len() && 0 <= j < s.len() && i != j ==> s[i].id != s[j].id
}

/// The confidence of the block with the given id, zero when it is absent.
pub open spec fn conf_of(s: Seq<BlockV>, id: Seq<char>) -> int {
    if has_block_id(s, id) {
        s[block_index_of(s, id)].confidence as int
    } else {
        0
    }
}

/// The minimum confidence among the given parent ids, the conservative zero
/// when there are none.
pub open spec fn parent_min_conf(s: Seq<BlockV>, parents: Seq<Seq<char>>) -> int
    decreases parents.len(),
{
    if parents.len() == 0 {
        0
    } else if parents.len() == 1 {
        conf_of(s, parents.last())
    } else {
        let rest = parent_min_conf(s, parents.drop_last());
        let last_c = conf_of(s, parents.last());
        if last_c < rest {
            last_c
        } else {
            rest
        }
    }
}

/// Total delay, in milliseconds, of the active nodes.
pub open spec fn active_delay_sum(peers: Seq<NodeV>) -> int
    decreases peers.len(),
{
    if peers.len() == 0 {
        0
    } else {
        active_delay_sum(peers.drop_last()) + if peers.last().status == NodeStatus::Active {
            peers.last().avg_delay as int
        } else {
            0
        }
    }
}

/// How many nodes are active.
pub open spec fn active_count(peers: Seq<NodeV>) -> int
    decreases peers.len(),
{
    if peers.len() == 0 {
        0
    } else {
        active_count(peers.drop_last()) + if peers.last().status == NodeStatus::Active {
            1int
        } else {
            0int
        }
    }
}

/// The resize step of the cluster selector: when the mean delay of the
/// active nodes exceeds one second the cluster grows by a fifth, capped at
/// 50; otherwise it shrinks by a fifth, floored at 5. Integer truncation,
/// and an empty active set counts as low delay.
pub open spec fn resize_k(k: int, peers: Seq<NodeV>) -> int {
    if active_delay_sum(peers) > 1000 * active_count(peers) {
        let k2 = k * 12 / 10;
        if k2 <= 50 {
            k2
        } else {
            50
        }
    } else {
        let k2 = k * 8 / 10;
        if k2 >= 5 {
            k2
        } else {
            5
        }
    }
}

/// The blocks with their membership flags reassigned by the selection-order
/// cut `k`: a block is in the cluster exactly when fewer than `k` blocks
/// outrank it.
pub open spec fn with_cluster_flags(s: Seq<BlockV>, k: int) -> Seq<BlockV> {
    Seq::new(s.len(), |i: int| BlockV { in_k_cluster: rank(s, i) < k, ..s[i] })
}

/// The number of blocks currently flagged as cluster members.
pub open spec fn cluster_size(s: Seq<BlockV>) -> int {
    Set::new(|i: int| 0 <= i < s.len() && s[i].in_k_cluster).len() as int
}

/// The blocks currently flagged as k-cluster members, in insertion order.
pub open spec fn cluster_members(s: Seq<BlockV>) -> Seq<BlockV> {
    s.filter(|b: BlockV| b.in_k_cluster)
}

/// The blocks whose confidence has reached the threshold, in insertion
/// order.
pub open spec fn confirmed_blocks(s: Seq<BlockV>, threshold: int) -> Seq<BlockV> {
    s.filter(|b: BlockV| b.confidence >= threshold)
}

/// The active network nodes, in insertion order.
pub open spec fn active_peers(s: Seq<NodeV>) -> Seq<NodeV> {
    s.filter(|n: NodeV| n.status == NodeStatus::Active)
}

/// The stored edges leaving the given block, in insertion order.
pub open spec fn outgoing(s: Seq<EdgeV>, id: Seq<char>) -> Seq<EdgeV> {
    s.filter(|e: EdgeV| e.from == id)
}

/// The indices below `j` whose blocks outrank block `i` in the selection
/// order: the part of the rank set seen by a scan of the first `j` blocks.
pub open spec fn beats_below(s: Seq<BlockV>, i: int, j: int) -> Set<int> {
    Set::new(|w: int| 0 <= w < j && beats(s[w], w, s[i], i))
}

/// A simple path in the relation graph: a walk from `a` to `b` that
/// repeats no id.
pub open spec fn simple_path(
    m: Map<(Seq<char>, Seq<char>), EdgeV>,
    q: Seq<Seq<char>>,
    a: Seq<char>,
    b: Seq<char>,
) -> bool {
    &&& is_path(m, q)
    &&& q.first() == a
    &&& q.last() == b
    &&& q.no_duplicates()
}

/// A simple path from `a` to `b` whose entries after the first stay out of
/// `vs`: the paths still open to the enumeration once the ids in `vs` are
/// already on the walk.
pub open spec fn avoiding_path(
    m: Map<(Seq<char>, Seq<char>), EdgeV>,
    q: Seq<Seq<char>>,
    a: Seq<char>,
    b: Seq<char>,
    vs: Set<Seq<char>>,
) -> bool {
    &&& simple_path(m, q, a, b)
    &&& forall|j: int| 1 <= j < q.len() ==> !vs.contains(#[trigger] q[j])
}

/// No two entries of a path list spell the same id sequence.
pub open spec fn distinct_paths(paths: Seq<Vec<String>>) -> bool {
    forall|i: int, j: int|
        0 <= i < paths.len() && 0 <= j < paths.len() && i != j ==> id_views(paths[i]@)
            != id_views(paths[j]@)
}

/// The path enumeration answered `paths` for the endpoints `from` and `to`:
/// every entry is a simple path between them, every simple path between
/// them is an entry, and no path appears twice.
pub open spec fn all_simple_paths(
    m: Map<(Seq<char>, Seq<char>), EdgeV>,
    paths: Seq<Vec<String>>,
    from: Seq<char>,
    to: Seq<char>,
) -> bool {
    &&& forall|i: int|
        0 <= i < paths.len() ==> simple_path(m, id_views(#[trigger] paths[i]@), from, to)
    &&& forall|q: Seq<Seq<char>>|
        simple_path(m, q, from, to) ==> exists|i: int|
            0 <= i < paths.len() && id_views(#[trigger] paths[i]@) == q
    &&& distinct_paths(paths)
}

/// Distinct ids that all name stored blocks are no more numerous than the
/// blocks.
pub proof fn lemma_ids_bound(blocks: Seq<BlockV>, ids: Seq<Seq<char>>)
    requires
        ids.no_duplicates(),
        forall|j: int| 0 <= j < ids.len() ==> has_block_id(blocks, #[trigger] ids[j]),
    ensures
        ids.len() <= blocks.len(),
{
    let bids = blocks.map_values(|b: BlockV| b.id);
    ids.unique_seq_to_set();
    bids.lemma_cardinality_of_set();
    assert(ids.to_set().subset_of(bids.to_set())) by {
        assert forall|x: Seq<char>| ids.to_set().contains(x) implies bids.to_set().contains(x) by {
            let j = choose|j: int| 0 <= j < ids.len() && ids[j] == x;
            let w = choose|w: int| 0 <= w < blocks.len() && blocks[w].id == x;
            assert(bids[w] == x);
        }
    }
    lemma_len_subset(ids.to_set(), bids.to_set());
}

/// Block `a` declares `b` among its parents.
pub open spec fn parent_edge(s: Seq<BlockV>, a: Seq<char>, b: Seq<char>) -> bool {
    exists|i: int, p: int|
        0 <= i < s.len() && 0 <= p < s[i].parents.len() && s[i].id == a && #[trigger] s[
            i
        ].parents[p] == b
}

/// The parent graph of the stored blocks: an edge from each block to each
/// of its declared parents. Acyclicity of this graph is the unit invariant
/// that no parent set, transitively, reaches back to its unit.
pub open spec fn parent_graph(s: Seq<BlockV>) -> Map<(Seq<char>, Seq<char>), EdgeV> {
    Map::new(
        |k: (Seq<char>, Seq<char>)| parent_edge(s, k.0, k.1),
        |k: (Seq<char>, Seq<char>)| EdgeV { from: k.0, to: k.1, weight: None, created_at: 0 },
    )
}

/// The parent graph without the links of the block with id `x`: what the
/// parent links of an insertion under that id are checked against.
pub open spec fn parent_graph_except(s: Seq<BlockV>, x: Seq<char>) -> Map<
    (Seq<char>, Seq<char>),
    EdgeV,
> {
    Map::new(
        |k: (Seq<char>, Seq<char>)| k.0 != x && parent_edge(s, k.0, k.1),
        |k: (Seq<char>, Seq<char>)| EdgeV { from: k.0, to: k.1, weight: None, created_at: 0 },
    )
}

/// The resize step keeps the cluster size parameter within `[5, 50]`: the
/// growth branch never leaves the range upward and the shrink branch never
/// leaves it downward, whatever the node directory holds.
pub proof fn lemma_resize_bounds(k: int, peers: Seq<NodeV>)
    requires
        5 <= k <= 50,
    ensures
        5 <= resize_k(k, peers) <= 50,
{
    vstd::arithmetic::div_mod::lemma_div_is_ordered(10 * k, 12 * k, 10);
    vstd::arithmetic::div_mod::lemma_div_is_ordered(8 * k, 10 * k, 10);
    vstd::arithmetic::div_mod::lemma_div_multiples_vanish(k, 10);
    assert(10 * k / 10 == k);
    assert(k * 12 / 10 >= k);
    assert(k * 8 / 10 <= k);
}

/// The spec-level state of the store.
#[verifier::ext_equal]
pub struct DagV {
    /// All blocks, in insertion order.
    pub blocks: Seq<BlockV>,
    /// All stored relations, in insertion order, keyed by `(from, to)`.
    pub rels: Seq<EdgeV>,
    /// The network-node directory, in insertion order.
    pub peers: Seq<NodeV>,
    /// The current cluster size parameter.
    pub k: int,
    /// The confidence threshold for a block to count as confirmed.
    pub min_confidence: int,
}

impl DagV {
    /// The relation map: each stored edge under its `(from, to)` key.
    pub open spec fn rels_map(self) -> Map<(Seq<char>, Seq<char>), EdgeV> {
        rel_map(self.rels)
    }

    /// A block with this id exists.
    pub open spec fn has_block(self, id: Seq<char>) -> bool {
        has_block_id(self.blocks, id)
    }

    /// A network node with this id exists.
    pub open spec fn has_peer(self, id: Seq<char>) -> bool {
        has_peer_id(self.peers, id)
    }

    /// Well-formedness of the store, preserved by every operation:
    /// unique ids and relation keys, relations and parents only between
    /// existing blocks, bounded confidence, bounded cluster size, and an
    /// acyclic relation graph.
    pub open spec fn wf(self) -> bool {
        &&& unique_block_ids(self.blocks)
        &&& unique_peer_ids(self.peers)
        &&& unique_keys(self.rels)
        &&& forall|i: int|
            0 <= i < self.rels.len() ==> self.has_block(#[trigger] self.rels[i].from)
                && self.has_block(self.rels[i].to)
        &&& forall|i: int, p: int|
            0 <= i < self.blocks.len() && 0 <= p < self.blocks[i].parents.len()
                ==> self.has_block(#[trigger] self.blocks[i].parents[p])
        &&& forall|i: int| 0 <= i < self.blocks.len() ==> (#[trigger] self.blocks[i]).confidence <= 100
        &&& 5 <= self.k <= 50
        &&& acyclic(rel_map(self.rels))
        &&& acyclic(parent_graph(self.blocks))
    }
}

/// The graph store and consensus engine.
///
/// Mutating methods take the store exclusively, so a validation (such as
/// the cycle check) and the write it gates always form one critical
/// section; an embedding that shares the store across callers wraps it in
/// its own reader-writer lock and holds the write side across each call.
pub struct DAG {
    blocks: Vec<Block>,
    edges: Vec<Edge>,
    nodes: Vec<Node>,
    k_cluster_size: usize,
    min_confidence: u8,
}

impl View for DAG {
    type V = DagV;

    closed spec fn view(&self) -> DagV {
        DagV {
            blocks: block_views(self.blocks@),
            rels: edge_views(self.edges@),
            peers: node_views(self.nodes@),
            k: self.k_cluster_size as int,
            min_confidence: self.min_confidence as int,
        }
    }
}

/// Finds the position of the block with the given id.
fn find_block_ix(blocks: &Vec<Block>, id: &String) -> (r: Option<usize>)
    ensures
        match r {
            Some(i) => i < blocks@.len() && block_views(blocks@)[i as int].id == id@,
            None => !has_block_id(block_views(blocks@), id@),
        },
{
    let mut i: usize = 0;
    while i < blocks.len()
        invariant
            i <= blocks@.len(),
            forall|j: int| 0 <= j < i ==> block_views(blocks@)[j].id != id@,
        decreases blocks@.len() - i,
    {
        if blocks[i].id == *id {
            return Some(i);
        }
        i = i + 1;
    }
    None
}

/// Finds the position of the network node with the given id.
fn find_node_ix(nodes: &Vec<Node>, id: &String) -> (r: Option<usize>)
    ensures
        match r {
            Some(i) => i < nodes@.len() && node_views(nodes@)[i as int].id == id@,
            None => !has_peer_id(node_views(nodes@), id@),
        },
{
    let mut i: usize = 0;
    while i < nodes.len()
        invariant
            i <= nodes@.len(),
            forall|j: int| 0 <= j < i ==> node_views(nodes@)[j].id != id@,
        decreases nodes@.len() - i,
    {
        if nodes[i].id == *id {
            return Some(i);
        }
        i = i + 1;
    }
    None
}

/// Finds the position of the stored edge with the given key.
fn find_edge_ix(edges: &Vec<Edge>, from: &String, to: &String) -> (r: Option<usize>)
    ensures
        match r {
            Some(i) => i < edges@.len() && edge_key(edge_views(edges@)[i as int]) == (from@, to@),
            None => forall|j: int|
                0 <= j < edges@.len() ==> edge_key(#[trigger] edge_views(edges@)[j]) != (
                from@,
                to@,
            ),
        },
{
    let mut i: usize = 0;
    while i < edges.len()
        invariant
            i <= edges@.len(),
            forall|j: int| 0 <= j < i ==> edge_key(#[trigger] edge_views(edges@)[j]) != (from@, to@),
        decreases edges@.len() - i,
    {
        if edges[i].from == *from && edges[i].to == *to {
            assert(edge_key(edge_views(edges@)[i as int]) == (from@, to@));
            return Some(i);
        }
        assert(edge_key(edge_views(edges@)[i as int]) != (from@, to@));
        i = i + 1;
    }
    None
}

/// The parent-link edges of one block: one edge to each declared parent.
pub open spec fn links_of(b: BlockV) -> Seq<EdgeV> {
    Seq::new(
        b.parents.len(),
        |p: int| EdgeV { from: b.id, to: b.parents[p], weight: None, created_at: 0 },
    )
}

/// The parent-link edges of the first `i` blocks, leaving out those of any
/// block with id `x`.
pub open spec fn parent_links_except(s: Seq<BlockV>, x: Seq<char>, i: int) -> Seq<EdgeV>
    decreases i,
{
    if i <= 0 {
        Seq::empty()
    } else {
        parent_links_except(s, x, i - 1) + (if s[i - 1].id == x {
            Seq::<EdgeV>::empty()
        } else {
            links_of(s[i - 1])
        })
    }
}

/// Some entry of the edge sequence carries the given key.
pub open spec fn link_key_in(s: Seq<EdgeV>, k: (Seq<char>, Seq<char>)) -> bool {
    exists|w: int| 0 <= w < s.len() && #[trigger] edge_key(s[w]) == k
}

/// The keys among the first `i` blocks' links are exactly the parent
/// relations of blocks with another id than `x`.
proof fn lemma_parent_links_except_entries(s: Seq<BlockV>, x: Seq<char>, i: int)
    requires
        0 <= i <= s.len(),
    ensures
        forall|k: (Seq<char>, Seq<char>)| #[trigger]
            link_key_in(parent_links_except(s, x, i), k) <==> (exists|i2: int, p2: int|
                #![trigger s[i2].parents[p2]]
                0 <= i2 < i && 0 <= p2 < s[i2].parents.len() && s[i2].id != x && k == (
                s[i2].id,
                s[i2].parents[p2],
            )),
    decreases i,
{
    if i > 0 {
        lemma_parent_links_except_entries(s, x, i - 1);
        let prev = parent_links_except(s, x, i - 1);
        let cur = parent_links_except(s, x, i);
        assert forall|k: (Seq<char>, Seq<char>)| #[trigger]
            link_key_in(cur, k) <==> (exists|i2: int, p2: int|
                #![trigger s[i2].parents[p2]]
                0 <= i2 < i && 0 <= p2 < s[i2].parents.len() && s[i2].id != x && k == (
                s[i2].id,
                s[i2].parents[p2],
            )) by {
            if link_key_in(cur, k) {
                let w = choose|w: int| 0 <= w < cur.len() && #[trigger] edge_key(cur[w]) == k;
                if w < prev.len() {
                    assert(edge_key(prev[w]) == k);
                    assert(link_key_in(prev, k));
                    let (i2, p2) = choose|i2: int, p2: int|
                        #![trigger s[i2].parents[p2]]
                        0 <= i2 < i - 1 && 0 <= p2 < s[i2].parents.len() && s[i2].id != x && k == (
                        s[i2].id,
                        s[i2].parents[p2],
                    );
                    assert(0 <= i2 < i && s[i2].parents[p2] == k.1);
                } else {
                    assert(s[i - 1].id != x);
                    let p2 = w - prev.len();
                    assert(cur[w] == links_of(s[i - 1])[p2]);
                    assert(k == (s[i - 1].id, s[i - 1].parents[p2]));
                }
            }
            if exists|i2: int, p2: int|
                #![trigger s[i2].parents[p2]]
                0 <= i2 < i && 0 <= p2 < s[i2].parents.len() && s[i2].id != x && k == (
                s[i2].id,
                s[i2].parents[p2],
            ) {
                let (i2, p2) = choose|i2: int, p2: int|
                    #![trigger s[i2].parents[p2]]
                    0 <= i2 < i && 0 <= p2 < s[i2].parents.len() && s[i2].id != x && k == (
                    s[i2].id,
                    s[i2].parents[p2],
                );
                if i2 < i - 1 {
                    assert(link_key_in(prev, k));
                    let w = choose|w: int|
                        0 <= w < prev.len() && #[trigger] edge_key(prev[w]) == k;
                    assert(edge_key(cur[w]) == k);
                    assert(link_key_in(cur, k));
                } else {
                    let w = prev.len() + p2;
                    assert(cur[w] == links_of(s[i - 1])[p2]);
                    assert(edge_key(cur[w]) == k);
                    assert(link_key_in(cur, k));
                }
            }
        }
    }
}

/// Materializes the links of the parent graph, leaving out those of the
/// block with the given id: the graph that the parent links of an insertion
/// under that id are checked against.
fn parent_link_edges_except(blocks: &Vec<Block>, x: &String) -> (r: Vec<Edge>)
    ensures
        forall|a: Seq<char>, b: Seq<char>|
            has_edge(rel_map(edge_views(r@)), a, b) <==> has_edge(
                parent_graph_except(block_views(blocks@), x@),
                a,
                b,
            ),
{
    let ghost bv = block_views(blocks@);
    let mut out: Vec<Edge> = Vec::new();
    let mut i: usize = 0;
    while i < blocks.len()
        invariant
            bv == block_views(blocks@),
            i <= bv.len(),
            edge_views(out@) =~= parent_links_except(bv, x@, i as int),
        decreases bv.len() - i,
    {
        let ghost at_block = edge_views(out@);
        if blocks[i].id != *x {
            let np = blocks[i].parents.len();
            let mut p: usize = 0;
            while p < np
                invariant
                    bv == block_views(blocks@),
                    i < bv.len(),
                    bv[i as int].id != x@,
                    np == bv[i as int].parents.len(),
                    p <= np,
                    at_block == parent_links_except(bv, x@, i as int),
                    edge_views(out@) =~= at_block + links_of(bv[i as int]).take(p as int),
                decreases np - p,
            {
                let ghost before = edge_views(out@);
                out.push(
                    Edge {
                        from: blocks[i].id.clone(),
                        to: blocks[i].parents[p].clone(),
                        weight: None,
                        created_at: 0,
                    },
                );
                proof {
                    assert(edge_views(out@) =~= before.push(links_of(bv[i as int])[p as int]));
                    assert(links_of(bv[i as int]).take(p + 1) =~= links_of(bv[i as int]).take(
                        p as int,
                    ).push(links_of(bv[i as int])[p as int]));
                    assert(edge_views(out@) =~= at_block + links_of(bv[i as int]).take(p + 1));
                }
                p = p + 1;
            }
            proof {
                assert(links_of(bv[i as int]).take(np as int) =~= links_of(bv[i as int]));
                assert(edge_views(out@) =~= parent_links_except(bv, x@, i + 1));
            }
        } else {
            proof {
                assert(edge_views(out@) =~= parent_links_except(bv, x@, i + 1));
            }
        }
        i = i + 1;
    }
    proof {
        assert(edge_views(out@) == parent_links_except(bv, x@, bv.len() as int));
        lemma_rel_map_contains(edge_views(out@));
        lemma_parent_links_except_entries(bv, x@, bv.len() as int);
        assert forall|a: Seq<char>, b: Seq<char>|
            has_edge(rel_map(edge_views(out@)), a, b) <==> has_edge(
                parent_graph_except(bv, x@),
                a,
                b,
            ) by {
            if has_edge(rel_map(edge_views(out@)), a, b) {
                assert(link_key_in(edge_views(out@), (a, b)));
                let (i2, p2) = choose|i2: int, p2: int|
                    #![trigger bv[i2].parents[p2]]
                    0 <= i2 < bv.len() && 0 <= p2 < bv[i2].parents.len() && bv[i2].id != x@ && (
                    a,
                    b,
                ) == (bv[i2].id, bv[i2].parents[p2]);
                assert(bv[i2].parents[p2] == b);
                assert(parent_edge(bv, a, b));
            }
            if has_edge(parent_graph_except(bv, x@), a, b) {
                let (i2, p2) = choose|i2: int, p2: int|
                    0 <= i2 < bv.len() && 0 <= p2 < bv[i2].parents.len() && bv[i2].id == a
                        && #[trigger] bv[i2].parents[p2] == b;
                assert(bv[i2].id != x@);
                assert(exists|i3: int, p3: int|
                    #![trigger bv[i3].parents[p3]]
                    0 <= i3 < bv.len() && 0 <= p3 < bv[i3].parents.len() && bv[i3].id != x@ && (
                    a,
                    b,
                ) == (bv[i3].id, bv[i3].parents[p3]));
                assert(link_key_in(edge_views(out@), (a, b)));
                let w = choose|w: int|
                    0 <= w < edge_views(out@).len() && #[trigger] edge_key(edge_views(out@)[w]) == (
                    a,
                    b,
                );
                assert(rel_map(edge_views(out@)).contains_key((a, b)));
            }
        }
    }
    out
}

impl DAG {
    /// Creates an empty store with the given confirmation threshold and the
    /// starting cluster size of 10.
    pub fn new(min_confidence: u8) -> (r: Self)
        ensures
            r@.blocks.len() == 0,
            r@.rels.len() == 0,
            r@.peers.len() == 0,
            r@.k == 10,
            r@.min_confidence == min_confidence,
            r@.wf(),
    {
        let dag = DAG {
            blocks: Vec::new(),
            edges: Vec::new(),
            nodes: Vec::new(),
            k_cluster_size: 10,
            min_confidence,
        };
        proof {
            assert(dag@.blocks =~= Seq::<BlockV>::empty());
            assert(dag@.rels =~= Seq::<EdgeV>::empty());
            assert(dag@.peers =~= Seq::<NodeV>::empty());
            assert forall|p: Seq<Seq<char>>|
                !(#[trigger] is_path(rel_map(dag@.rels), p) && p.len() >= 2 && p.first()
                    == p.last()) by {
                if is_path(rel_map(dag@.rels), p) && p.len() >= 2 {
                    assert(has_edge(rel_map(dag@.rels), p[0], p[1]));
                }
            }
            crate::reach::lemma_no_edges_acyclic(parent_graph(dag@.blocks));
        }
        dag
    }

    /// The current cluster size parameter.
    pub fn k_cluster_size(&self) -> (r: usize)
        ensures
            r as int == self@.k,
    {
        self.k_cluster_size
    }

    /// Registers a network node, overwriting any directory entry with the
    /// same id.
    pub fn add_node(&mut self, node: Node) -> (r: Result<(), Error>)
        requires
            old(self)@.wf(),
        ensures
            final(self)@.wf(),
            r is Ok,
            final(self)@.blocks == old(self)@.blocks,
            final(self)@.rels == old(self)@.rels,
            final(self)@.k == old(self)@.k,
            final(self)@.min_confidence == old(self)@.min_confidence,
            old(self)@.has_peer(node@.id) ==> exists|i: int|
                0 <= i < old(self)@.peers.len() && old(self)@.peers[i].id == node@.id && final(self)@.peers == old(self)@.peers.update(i, node@),
            !old(self)@.has_peer(node@.id) ==> final(self)@.peers == old(self)@.peers.push(node@),
    {
        let ghost pre = self@.peers;
        match find_node_ix(&self.nodes, &node.id) {
            Some(i) => {
                self.nodes[i] = node;
                assert(final(self)@.peers =~= pre.update(i as int, node@)) by {
                    assert(node_views(self.nodes@) =~= pre.update(i as int, node@));
                }
            },
            None => {
                self.nodes.push(node);
                assert(final(self)@.peers =~= pre.push(node@)) by {
                    assert(node_views(self.nodes@) =~= pre.push(node@));
                }
            },
        }
        Ok(())
    }

    /// Records a delay measurement for a network node, refreshing its
    /// last-seen time; a measurement for an unknown node is dropped.
    pub fn update_node_delay(&mut self, node_id: &String, delay: u64, now: u64) -> (r: Result<
        (),
        Error,
    >)
        requires
            old(self)@.wf(),
        ensures
            final(self)@.wf(),
            r is Ok,
            final(self)@.blocks == old(self)@.blocks,
            final(self)@.rels == old(self)@.rels,
            final(self)@.k == old(self)@.k,
            final(self)@.min_confidence == old(self)@.min_confidence,
            old(self)@.has_peer(node_id@) ==> exists|i: int|
                0 <= i < old(self)@.peers.len() && old(self)@.peers[i].id == node_id@ && final(self)@.peers == old(self)@.peers.update(
                    i,
                    (NodeV { avg_delay: delay, last_seen: now, ..old(self)@.peers[i] }),
                ),
            !old(self)@.has_peer(node_id@) ==> final(self)@.peers == old(self)@.peers,
    {
        let ghost pre = self@.peers;
        match find_node_ix(&self.nodes, node_id) {
            Some(i) => {
                let ghost old_node = pre[i as int];
                self.nodes[i].avg_delay = delay;
                self.nodes[i].last_seen = now;
                assert(final(self)@.peers =~= pre.update(
                    i as int,
                    (NodeV { avg_delay: delay, last_seen: now, ..old_node }),
                )) by {
                    assert(node_views(self.nodes@) =~= pre.update(
                        i as int,
                        (NodeV { avg_delay: delay, last_seen: now, ..old_node }),
                    ));
                }
            },
            None => {
                assert(final(self)@.peers =~= pre);
            },
        }
        Ok(())
    }

    /// Returns a snapshot of the network node with the given id, or
    /// `PeerNotFound` when it is absent.
    pub fn get_node(&self, id: &String) -> (r: Result<Node, Error>)
        ensures
            match r {
                Ok(n) => exists|i: int|
                    0 <= i < self@.peers.len() && #[trigger] self@.peers[i].id == id@ && n@
                        == self@.peers[i],
                Err(e) => !self@.has_peer(id@) && (e matches Error::PeerNotFound(p) && p@ == id@),
            },
    {
        match find_node_ix(&self.nodes, id) {
            Some(i) => {
                let n = self.nodes[i].clone();
                assert(self@.peers[i as int].id == id@ && n@ == self@.peers[i as int]);
                Ok(n)
            },
            None => Err(Error::PeerNotFound(id.clone())),
        }
    }

    /// Returns a snapshot of the block with the given id, or `NodeNotFound`
    /// when it is absent.
    pub fn get_block(&self, id: &String) -> (r: Result<Block, Error>)
        ensures
            match r {
                Ok(b) => exists|i: int|
                    0 <= i < self@.blocks.len() && #[trigger] self@.blocks[i].id == id@ && b@
                        == self@.blocks[i],
                Err(e) => !self@.has_block(id@) && (e matches Error::NodeNotFound(p) && p@ == id@),
            },
    {
        match find_block_ix(&self.blocks, id) {
            Some(i) => {
                let b = self.blocks[i].clone();
                assert(self@.blocks[i as int].id == id@ && b@ == self@.blocks[i as int]);
                Ok(b)
            },
            None => Err(Error::NodeNotFound(id.clone())),
        }
    }

    /// Returns a snapshot of the stored edge between the two blocks, or
    /// `EdgeNotFound` when none is stored.
    pub fn get_edge(&self, from: &String, to: &String) -> (r: Result<Edge, Error>)
        requires
            self@.wf(),
        ensures
            match r {
                Ok(e) => self@.rels_map().contains_key((from@, to@)) && e@ == self@.rels_map()[
                    (from@, to@)
                ],
                Err(e) => !self@.rels_map().contains_key((from@, to@)) && (e
                    matches Error::EdgeNotFound { from: f, to: t } && f@ == from@ && t@ == to@),
            },
    {
        proof {
            lemma_rel_map_contains(self@.rels);
            lemma_rel_map_index(self@.rels);
        }
        match find_edge_ix(&self.edges, from, to) {
            Some(i) => {
                assert(self@.rels_map()[(from@, to@)] == self@.rels[i as int]);
                Ok(self.edges[i].clone())
            },
            None => Err(Error::EdgeNotFound { from: from.clone(), to: to.clone() }),
        }
    }

    /// Returns a snapshot of all blocks, in insertion order.
    pub fn blocks(&self) -> (r: Vec<Block>)
        ensures
            block_views(r@) == self@.blocks,
    {
        let mut out: Vec<Block> = Vec::new();
        let mut i: usize = 0;
        while i < self.blocks.len()
            invariant
                i <= self.blocks@.len(),
                out@.len() == i,
                block_views(out@) =~= self@.blocks.take(i as int),
            decreases self.blocks@.len() - i,
        {
            let ghost pre = out@;
            let b = self.blocks[i].clone();
            assert(b@ == self@.blocks[i as int]);
            out.push(b);
            i = i + 1;
            assert(block_views(out@) =~= block_views(pre).push(self@.blocks[i - 1]));
            assert(block_views(out@) =~= self@.blocks.take(i as int));
        }
        assert(block_views(out@) =~= self@.blocks);
        out
    }

    /// Returns a snapshot of all stored edges, in insertion order.
    pub fn edges(&self) -> (r: Vec<Edge>)
        ensures
            edge_views(r@) == self@.rels,
    {
        let mut out: Vec<Edge> = Vec::new();
        let mut i: usize = 0;
        while i < self.edges.len()
            invariant
                i <= self.edges@.len(),
                out@.len() == i,
                edge_views(out@) =~= self@.rels.take(i as int),
            decreases self.edges@.len() - i,
        {
            let ghost pre = out@;
            let e = self.edges[i].clone();
            assert(e@ == self@.rels[i as int]);
            out.push(e);
            i = i + 1;
            assert(edge_views(out@) =~= edge_views(pre).push(self@.rels[i - 1]));
            assert(edge_views(out@) =~= self@.rels.take(i as int));
        }
        assert(edge_views(out@) =~= self@.rels);
        out
    }

    /// Returns snapshots of the current k-cluster members, in insertion
    /// order.
    pub fn get_k_cluster(&self) -> (r: Result<Vec<Block>, Error>)
        ensures
            r matches Ok(v) && block_views(v@) == cluster_members(self@.blocks),
    {
        let mut out: Vec<Block> = Vec::new();
        let mut i: usize = 0;
        proof {
            reveal(Seq::filter);
            assert(block_views(out@) =~= cluster_members(self@.blocks.take(0)));
        }
        while i < self.blocks.len()
            invariant
                i <= self.blocks@.len(),
                block_views(out@) =~= cluster_members(self@.blocks.take(i as int)),
            decreases self.blocks@.len() - i,
        {
            let ghost prev = self@.blocks.take(i as int);
            let ghost pre_out = out@;
            if self.blocks[i].in_k_cluster {
                let b = self.blocks[i].clone();
                assert(b@ == self@.blocks[i as int]);
                out.push(b);
                assert(block_views(out@) =~= block_views(pre_out).push(self@.blocks[i as int]));
            }
            i = i + 1;
            proof {
                assert(self@.blocks.take(i as int).drop_last() =~= prev);
                assert(self@.blocks.take(i as int).last() == self@.blocks[i - 1]);
                reveal(Seq::filter);
                assert(block_views(out@) =~= cluster_members(self@.blocks.take(i as int)));
            }
        }
        assert(self@.blocks.take(self.blocks@.len() as int) =~= self@.blocks);
        Ok(out)
    }

    /// Returns snapshots of the blocks whose confidence has reached the
    /// confirmation threshold, in insertion order.
    pub fn get_confirmed_blocks(&self) -> (r: Result<Vec<Block>, Error>)
        ensures
            r matches Ok(v) && block_views(v@) == confirmed_blocks(
                self@.blocks,
                self@.min_confidence,
            ),
    {
        let ghost th = self@.min_confidence;
        let mut out: Vec<Block> = Vec::new();
        let mut i: usize = 0;
        proof {
            reveal(Seq::filter);
            assert(block_views(out@) =~= confirmed_blocks(self@.blocks.take(0), th));
        }
        while i < self.blocks.len()
            invariant
                th == self@.min_confidence,
                i <= self.blocks@.len(),
                block_views(out@) =~= confirmed_blocks(self@.blocks.take(i as int), th),
            decreases self.blocks@.len() - i,
        {
            let ghost prev = self@.blocks.take(i as int);
            let ghost pre_out = out@;
            if self.blocks[i].confidence >= self.min_confidence {
                let b = self.blocks[i].clone();
                assert(b@ == self@.blocks[i as int]);
                out.push(b);
                assert(block_views(out@) =~= block_views(pre_out).push(self@.blocks[i as int]));
            }
            i = i + 1;
            proof {
                assert(self@.blocks.take(i as int).drop_last() =~= prev);
                assert(self@.blocks.take(i as int).last() == self@.blocks[i - 1]);
                reveal(Seq::filter);
                assert(block_views(out@) =~= confirmed_blocks(self@.blocks.take(i as int), th));
            }
        }
        assert(self@.blocks.take(self.blocks@.len() as int) =~= self@.blocks);
        Ok(out)
    }

    /// Returns snapshots of the active network nodes, in insertion order.
    pub fn get_active_nodes(&self) -> (r: Result<Vec<Node>, Error>)
        ensures
            r matches Ok(v) && node_views(v@) == active_peers(self@.peers),
    {
        let mut out: Vec<Node> = Vec::new();
        let mut i: usize = 0;
        proof {
            reveal(Seq::filter);
            assert(node_views(out@) =~= active_peers(self@.peers.take(0)));
        }
        while i < self.nodes.len()
            invariant
                i <= self.nodes@.len(),
                node_views(out@) =~= active_peers(self@.peers.take(i as int)),
            decreases self.nodes@.len() - i,
        {
            let ghost prev = self@.peers.take(i as int);
            let ghost pre_out = out@;
            if self.nodes[i].status == NodeStatus::Active {
                let n = self.nodes[i].clone();
                assert(n@ == self@.peers[i as int]);
                out.push(n);
                assert(node_views(out@) =~= node_views(pre_out).push(self@.peers[i as int]));
            }
            i = i + 1;
            proof {
                assert(self@.peers.take(i as int).drop_last() =~= prev);
                assert(self@.peers.take(i as int).last() == self@.peers[i - 1]);
                reveal(Seq::filter);
                assert(node_views(out@) =~= active_peers(self@.peers.take(i as int)));
            }
        }
        assert(self@.peers.take(self.nodes@.len() as int) =~= self@.peers);
        Ok(out)
    }

    /// Stores a directed edge between two existing blocks, after the
    /// acyclicity gate: the edge is refused with `CycleDetected` exactly
    /// when its source is already reachable from its target. Re-inserting a
    /// stored `(from, to)` pair overwrites the record, so the latest write
    /// wins; a refused edge leaves the store unchanged.
    pub fn add_edge(&mut self, edge: Edge) -> (r: Result<(), Error>)
        requires
            old(self)@.wf(),
        ensures
            final(self)@.wf(),
            final(self)@.blocks == old(self)@.blocks,
            final(self)@.peers == old(self)@.peers,
            final(self)@.k == old(self)@.k,
            final(self)@.min_confidence == old(self)@.min_confidence,
            match r {
                Ok(()) => old(self)@.has_block(edge@.from) && old(self)@.has_block(edge@.to)
                    && !creates_cycle(old(self)@.rels_map(), edge@.from, edge@.to) && final(self)@.rels_map() == old(self)@.rels_map().insert((edge@.from, edge@.to), edge@),
                Err(e) => final(self)@ == old(self)@ && match e {
                    Error::NodeNotFound(id) => (id@ == edge@.from && !old(self)@.has_block(
                        edge@.from,
                    )) || (id@ == edge@.to && old(self)@.has_block(edge@.from) && !old(self)@.has_block(edge@.to)),
                    Error::CycleDetected { from, to } => from@ == edge@.from && to@ == edge@.to
                        && old(self)@.has_block(edge@.from) && old(self)@.has_block(edge@.to)
                        && creates_cycle(old(self)@.rels_map(), edge@.from, edge@.to),
                    _ => false,
                },
            },
    {
        let ghost m = self@.rels_map();
        let ghost pre = self@.rels;
        if find_block_ix(&self.blocks, &edge.from).is_none() {
            assert(final(self)@ =~= old(self)@);
            return Err(Error::NodeNotFound(edge.from));
        }
        if find_block_ix(&self.blocks, &edge.to).is_none() {
            assert(final(self)@ =~= old(self)@);
            return Err(Error::NodeNotFound(edge.to));
        }
        if would_create_cycle(&self.edges, &edge.from, &edge.to) {
            assert(final(self)@ =~= old(self)@);
            return Err(Error::CycleDetected { from: edge.from, to: edge.to });
        }
        proof {
            lemma_insert_edge_acyclic(m, edge@.from, edge@.to, edge@);
            lemma_rel_map_contains(pre);
        }
        match find_edge_ix(&self.edges, &edge.from, &edge.to) {
            Some(i) => {
                proof {
                    lemma_rel_map_update(pre, i as int, edge@);
                }
                self.edges[i] = edge;
                assert(edge_views(self.edges@) =~= pre.update(i as int, edge@));
                assert(unique_keys(final(self)@.rels)) by {
                    assert forall|a: int, b: int|
                        0 <= a < final(self)@.rels.len() && 0 <= b < final(self)@.rels.len() && a
                            != b implies edge_key(final(self)@.rels[a]) != edge_key(
                        final(self)@.rels[b],
                    ) by {
                        assert(edge_key(final(self)@.rels[a]) == edge_key(pre[a]));
                        assert(edge_key(final(self)@.rels[b]) == edge_key(pre[b]));
                    }
                }
            },
            None => {
                proof {
                    lemma_rel_map_push(pre, edge@);
                }
                self.edges.push(edge);
                assert(edge_views(self.edges@) =~= pre.push(edge@));
                assert(unique_keys(final(self)@.rels)) by {
                    assert forall|a: int, b: int|
                        0 <= a < final(self)@.rels.len() && 0 <= b < final(self)@.rels.len() && a
                            != b implies edge_key(final(self)@.rels[a]) != edge_key(
                        final(self)@.rels[b],
                    ) by {
                        if a < pre.len() && b < pre.len() {
                            assert(edge_key(final(self)@.rels[a]) == edge_key(pre[a]));
                            assert(edge_key(final(self)@.rels[b]) == edge_key(pre[b]));
                        }
                    }
                }
            },
        }
        assert(final(self)@.rels_map() == old(self)@.rels_map().insert(
            (edge@.from, edge@.to),
            edge@,
        ));
        assert(final(self)@.wf()) by {
            assert forall|i: int|
                0 <= i < final(self)@.rels.len() implies final(self)@.has_block(
                #[trigger] final(self)@.rels[i].from,
            ) && final(self)@.has_block(final(self)@.rels[i].to) by {
                if i < pre.len() && final(self)@.rels[i] == pre[i] {
                    assert(old(self)@.has_block(pre[i].from));
                    assert(old(self)@.has_block(pre[i].to));
                }
            }
        }
        Ok(())
    }

    /// Handles a validation event: the named network node validates the
    /// named block. The node ends the event active, with one more validated
    /// block and a fresh last-seen time; the block's confidence is
    /// recomputed from its parents' minimum confidence and its own measured
    /// delay. On failure nothing is mutated.
    pub fn validate_block(&mut self, block_id: &String, node_id: &String, now: u64) -> (r: Result<
        (),
        Error,
    >)
        requires
            old(self)@.wf(),
            forall|i: int|
                0 <= i < old(self)@.peers.len() && (#[trigger] old(self)@.peers[i]).id == node_id@
                    ==> old(self)@.peers[i].blocks_validated < u64::MAX,
        ensures
            final(self)@.wf(),
            final(self)@.rels == old(self)@.rels,
            final(self)@.k == old(self)@.k,
            final(self)@.min_confidence == old(self)@.min_confidence,
            match r {
                Ok(()) => old(self)@.has_block(block_id@) && old(self)@.has_peer(node_id@) && (
                exists|bi: int|
                    0 <= bi < old(self)@.blocks.len() && (#[trigger] old(self)@.blocks[bi]).id
                        == block_id@ && final(self)@.blocks == old(self)@.blocks.update(
                        bi,
                        (BlockV {
                            confidence: confidence_formula(
                                parent_min_conf(old(self)@.blocks, old(self)@.blocks[bi].parents),
                                old(self)@.blocks[bi].network_delay as int,
                            ) as u8,
                            ..old(self)@.blocks[bi]
                        }),
                    )) && (exists|ni: int|
                    0 <= ni < old(self)@.peers.len() && (#[trigger] old(self)@.peers[ni]).id
                        == node_id@ && final(self)@.peers == old(self)@.peers.update(
                        ni,
                        (NodeV {
                            status: NodeStatus::Active,
                            blocks_validated: (old(self)@.peers[ni].blocks_validated + 1) as u64,
                            last_seen: now,
                            ..old(self)@.peers[ni]
                        }),
                    )),
                Err(e) => final(self)@ == old(self)@ && match e {
                    Error::NodeNotFound(id) => id@ == block_id@ && !old(self)@.has_block(block_id@),
                    Error::PeerNotFound(id) => id@ == node_id@ && old(self)@.has_block(block_id@)
                        && !old(self)@.has_peer(node_id@),
                    _ => false,
                },
            },
    {
        let ghost pre = old(self)@;
        let bix = match find_block_ix(&self.blocks, block_id) {
            Some(i) => i,
            None => {
                assert(final(self)@ =~= pre);
                return Err(Error::NodeNotFound(block_id.clone()));
            },
        };
        let nix = match find_node_ix(&self.nodes, node_id) {
            Some(i) => i,
            None => {
                assert(final(self)@ =~= pre);
                return Err(Error::PeerNotFound(node_id.clone()));
            },
        };
        assert(pre.blocks[bix as int].id == block_id@);
        assert(pre.peers[nix as int].id == node_id@);
        // the node walks through the validating state and back to active
        self.nodes[nix].status = NodeStatus::Validating;
        self.nodes[nix].blocks_validated = self.nodes[nix].blocks_validated + 1;
        self.nodes[nix].last_seen = now;
        // minimum confidence among the parents, zero when there are none
        let ghost parents_v = pre.blocks[bix as int].parents;
        let np = self.blocks[bix].parents.len();
        assert(parents_v.len() == np);
        let mut pc: u8 = 0;
        let mut j: usize = 0;
        while j < np
            invariant
                self@.blocks == pre.blocks,
                pre.wf(),
                bix < pre.blocks.len(),
                parents_v == pre.blocks[bix as int].parents,
                np == parents_v.len(),
                j <= np,
                pc <= 100,
                j == 0 ==> pc == 0,
                j > 0 ==> pc == parent_min_conf(pre.blocks, parents_v.take(j as int)),
            decreases np - j,
        {
            assert(pre.has_block(parents_v[j as int]));
            let pix = match find_block_ix(&self.blocks, &self.blocks[bix].parents[j]) {
                Some(i) => i,
                None => {
                    // well-formedness guarantees every declared parent is
                    // stored, so this arm cannot be reached
                    assert(false);
                    return Err(Error::NodeNotFound(block_id.clone()));
                },
            };
            let cv = self.blocks[pix].confidence;
            proof {
                // the found index is the one the model's lookup chooses
                let c = block_index_of(pre.blocks, parents_v[j as int]);
                assert(pre.blocks[c].id == parents_v[j as int]);
                assert(c == pix as int);
                assert(cv as int == conf_of(pre.blocks, parents_v[j as int]));
            }
            if j == 0 {
                pc = cv;
            } else if cv < pc {
                pc = cv;
            }
            j = j + 1;
            proof {
                assert(parents_v.take(j as int).drop_last() =~= parents_v.take(j as int - 1));
                assert(parents_v.take(j as int).last() == parents_v[j as int - 1]);
                assert(pc == parent_min_conf(pre.blocks, parents_v.take(j as int)));
            }
        }
        assert(parents_v.take(np as int) =~= parents_v);
        assert(pc as int == parent_min_conf(pre.blocks, parents_v));
        let delay = self.blocks[bix].network_delay;
        let new_conf = compute_confidence(pc, delay);
        self.blocks[bix].confidence = new_conf;
        self.nodes[nix].status = NodeStatus::Active;
        proof {
            let nb = BlockV {
                confidence: confidence_formula(
                    parent_min_conf(pre.blocks, pre.blocks[bix as int].parents),
                    pre.blocks[bix as int].network_delay as int,
                ) as u8,
                ..pre.blocks[bix as int]
            };
            assert(final(self)@.blocks =~= pre.blocks.update(bix as int, nb));
            let nn = NodeV {
                status: NodeStatus::Active,
                blocks_validated: (pre.peers[nix as int].blocks_validated + 1) as u64,
                last_seen: now,
                ..pre.peers[nix as int]
            };
            assert(final(self)@.peers =~= pre.peers.update(nix as int, nn));
            assert(final(self)@.rels == pre.rels);
            // well-formedness survives: ids are untouched, the new confidence
            // is within bounds, the relation graph is untouched
            assert(final(self)@.wf()) by {
                assert(parent_graph(final(self)@.blocks) =~= parent_graph(pre.blocks)) by {
                    assert forall|a: Seq<char>, b: Seq<char>|
                        parent_edge(final(self)@.blocks, a, b) <==> parent_edge(
                            pre.blocks,
                            a,
                            b,
                        ) by {
                        if parent_edge(final(self)@.blocks, a, b) {
                            let (i2, p2) = choose|i2: int, p2: int|
                                0 <= i2 < final(self)@.blocks.len() && 0 <= p2 < final(self)@.blocks[i2].parents.len() && final(self)@.blocks[i2].id == a
                                    && #[trigger] final(self)@.blocks[i2].parents[p2] == b;
                            assert(pre.blocks[i2].parents[p2] == b);
                        }
                        if parent_edge(pre.blocks, a, b) {
                            let (i2, p2) = choose|i2: int, p2: int|
                                0 <= i2 < pre.blocks.len() && 0 <= p2 < pre.blocks[i2].parents.len()
                                    && pre.blocks[i2].id == a && #[trigger] pre.blocks[i2].parents[
                                p2] == b;
                            assert(final(self)@.blocks[i2].parents[p2] == b);
                        }
                    }
                }
                assert(unique_block_ids(final(self)@.blocks)) by {
                    assert forall|a: int, b: int|
                        0 <= a < final(self)@.blocks.len() && 0 <= b < final(self)@.blocks.len()
                            && a != b implies final(self)@.blocks[a].id != final(self)@.blocks[b].id by {
                        assert(final(self)@.blocks[a].id == pre.blocks[a].id);
                        assert(final(self)@.blocks[b].id == pre.blocks[b].id);
                    }
                }
                assert forall|i: int|
                    0 <= i < final(self)@.rels.len() implies final(self)@.has_block(
                    #[trigger] final(self)@.rels[i].from,
                ) && final(self)@.has_block(final(self)@.rels[i].to) by {
                    let a = choose|a: int|
                        0 <= a < pre.blocks.len() && pre.blocks[a].id == pre.rels[i].from;
                    assert(final(self)@.blocks[a].id == pre.rels[i].from);
                    let b = choose|b: int|
                        0 <= b < pre.blocks.len() && pre.blocks[b].id == pre.rels[i].to;
                    assert(final(self)@.blocks[b].id == pre.rels[i].to);
                }
                assert forall|i: int, p: int|
                    0 <= i < final(self)@.blocks.len() && 0 <= p < final(self)@.blocks[i].parents.len() implies final(self)@.has_block(
                    #[trigger] final(self)@.blocks[i].parents[p],
                ) by {
                    assert(final(self)@.blocks[i].parents == pre.blocks[i].parents);
                    assert(pre.has_block(pre.blocks[i].parents[p]));
                    let a = choose|a: int|
                        0 <= a < pre.blocks.len() && pre.blocks[a].id == pre.blocks[i].parents[p];
                    assert(final(self)@.blocks[a].id == pre.blocks[i].parents[p]);
                }
            }
        }
        Ok(())
    }

    /// Recomputes the cluster: the size parameter is resized from the mean
    /// delay of the active network nodes, then exactly the top blocks of
    /// the selection order are flagged as members. After the call the
    /// number of members is the smaller of the cluster size and the block
    /// count.
    pub fn update_k_clusters(&mut self) -> (r: Result<(), Error>)
        requires
            old(self)@.wf(),
        ensures
            final(self)@.wf(),
            r is Ok,
            final(self)@.rels == old(self)@.rels,
            final(self)@.peers == old(self)@.peers,
            final(self)@.min_confidence == old(self)@.min_confidence,
            final(self)@.k == resize_k(old(self)@.k, old(self)@.peers),
            final(self)@.blocks == with_cluster_flags(old(self)@.blocks, final(self)@.k),
            cluster_size(final(self)@.blocks) == if final(self)@.k <= final(self)@.blocks.len() {
                final(self)@.k
            } else {
                final(self)@.blocks.len() as int
            },
    {
        let ghost pre = old(self)@;
        // mean delay over the active nodes, in exact integer arithmetic
        let mut sum: u128 = 0;
        let mut cnt: u64 = 0;
        let mut i: usize = 0;
        while i < self.nodes.len()
            invariant
                self@ == pre,
                i <= pre.peers.len(),
                sum as int == active_delay_sum(pre.peers.take(i as int)),
                cnt as int == active_count(pre.peers.take(i as int)),
                cnt <= i,
                sum <= i as int * (u64::MAX as int),
            decreases pre.peers.len() - i,
        {
            let ghost prev = pre.peers.take(i as int);
            if self.nodes[i].status == NodeStatus::Active {
                proof {
                    assert(sum + self@.peers[i as int].avg_delay <= (i as int + 1) * (
                    u64::MAX as int)) by (nonlinear_arith)
                        requires
                            sum <= i as int * (u64::MAX as int),
                            self@.peers[i as int].avg_delay <= u64::MAX as int,
                            i >= 0,
                    ;
                    assert((i as int + 1) * (u64::MAX as int) < u128::MAX as int)
                        by (nonlinear_arith)
                        requires
                            0 <= i as int + 1 <= usize::MAX as int,
                    ;
                }
                sum = sum + (self.nodes[i].avg_delay as u128);
                cnt = cnt + 1;
            } else {
                proof {
                    assert(sum <= (i as int + 1) * (u64::MAX as int)) by (nonlinear_arith)
                        requires
                            sum <= i as int * (u64::MAX as int),
                            i >= 0,
                    ;
                }
            }
            i = i + 1;
            proof {
                assert(pre.peers.take(i as int).drop_last() =~= prev);
                assert(pre.peers.take(i as int).last() == pre.peers[i - 1]);
            }
        }
        assert(pre.peers.take(pre.peers.len() as int) =~= pre.peers);
        // resize, with integer truncation
        proof {
            assert(1000 * (cnt as int) <= 1000 * (u64::MAX as int)) by (nonlinear_arith)
                requires
                    cnt as int <= u64::MAX as int,
            ;
        }
        let high = sum > 1000u128 * (cnt as u128);
        let k0 = self.k_cluster_size;
        assert(5 <= k0 <= 50);
        let k2: usize = if high {
            let g = k0 * 12 / 10;
            if g <= 50 {
                g
            } else {
                50
            }
        } else {
            let g = k0 * 8 / 10;
            if g >= 5 {
                g
            } else {
                5
            }
        };
        self.k_cluster_size = k2;
        proof {
            lemma_resize_bounds(pre.k, pre.peers);
            assert(k2 as int == resize_k(pre.k, pre.peers));
        }
        // rank every block in the selection order
        let n = self.blocks.len();
        let mut ranks: Vec<usize> = Vec::new();
        let mut i: usize = 0;
        while i < n
            invariant
                self@.blocks == pre.blocks,
                n == pre.blocks.len(),
                i <= n,
                ranks@.len() == i,
                forall|w: int| 0 <= w < i ==> #[trigger] ranks@[w] as int == rank(pre.blocks, w),
            decreases n - i,
        {
            let mut c: usize = 0;
            let mut j: usize = 0;
            proof {
                assert(beats_below(pre.blocks, i as int, 0) =~= Set::<int>::empty());
            }
            while j < n
                invariant
                    self@.blocks == pre.blocks,
                    n == pre.blocks.len(),
                    i < n,
                    j <= n,
                    c <= j,
                    c as int == beats_below(pre.blocks, i as int, j as int).len(),
                decreases n - j,
            {
                let ghost sj = beats_below(pre.blocks, i as int, j as int);
                proof {
                    lemma_int_range(0, j as int);
                    assert(sj.subset_of(set_int_range(0, j as int)));
                    lemma_set_subset_finite(set_int_range(0, j as int), sj);
                }
                if beats_exec(&self.blocks[j], j, &self.blocks[i], i) {
                    c = c + 1;
                    proof {
                        assert(beats_below(pre.blocks, i as int, j + 1) =~= sj.insert(j as int));
                        assert(!sj.contains(j as int));
                    }
                } else {
                    proof {
                        assert(beats_below(pre.blocks, i as int, j + 1) =~= sj);
                    }
                }
                j = j + 1;
            }
            proof {
                assert(beats_below(pre.blocks, i as int, n as int) =~= rank_set(
                    pre.blocks,
                    i as int,
                ));
            }
            ranks.push(c);
            i = i + 1;
        }
        // re-flag exactly the blocks whose rank is below the cut
        let mut i: usize = 0;
        while i < n
            invariant
                n == pre.blocks.len(),
                self@.blocks.len() == n,
                self@.rels == pre.rels,
                self@.peers == pre.peers,
                self@.min_confidence == pre.min_confidence,
                self@.k == k2,
                i <= n,
                ranks@.len() == n,
                forall|w: int| 0 <= w < n ==> #[trigger] ranks@[w] as int == rank(pre.blocks, w),
                forall|w: int|
                    0 <= w < i ==> #[trigger] self@.blocks[w] == (BlockV {
                        in_k_cluster: rank(pre.blocks, w) < k2 as int,
                        ..pre.blocks[w]
                    }),
                forall|w: int| i <= w < n ==> #[trigger] self@.blocks[w] == pre.blocks[w],
            decreases n - i,
        {
            let ghost before = self@.blocks;
            let member = ranks[i] < k2;
            self.blocks[i].in_k_cluster = member;
            proof {
                lemma_rank_in_range(pre.blocks, i as int);
                assert(self@.blocks =~= before.update(
                    i as int,
                    (BlockV { in_k_cluster: member, ..before[i as int] }),
                ));
                assert(before[i as int] == pre.blocks[i as int]);
            }
            i = i + 1;
        }
        proof {
            assert(final(self)@.blocks =~= with_cluster_flags(pre.blocks, k2 as int));
            lemma_rank_cut_size(pre.blocks, k2 as int);
            assert(Set::new(
                |w: int| 0 <= w < final(self)@.blocks.len() && final(self)@.blocks[w].in_k_cluster,
            ) =~= Set::new(|w: int| 0 <= w < pre.blocks.len() && rank(pre.blocks, w) < k2 as int));
            // well-formedness survives: only flags changed
            assert(final(self)@.wf()) by {
                assert(parent_graph(final(self)@.blocks) =~= parent_graph(pre.blocks)) by {
                    assert forall|a: Seq<char>, b: Seq<char>|
                        parent_edge(final(self)@.blocks, a, b) <==> parent_edge(
                            pre.blocks,
                            a,
                            b,
                        ) by {
                        if parent_edge(final(self)@.blocks, a, b) {
                            let (i2, p2) = choose|i2: int, p2: int|
                                0 <= i2 < final(self)@.blocks.len() && 0 <= p2 < final(self)@.blocks[i2].parents.len() && final(self)@.blocks[i2].id == a
                                    && #[trigger] final(self)@.blocks[i2].parents[p2] == b;
                            assert(pre.blocks[i2].parents[p2] == b);
                        }
                        if parent_edge(pre.blocks, a, b) {
                            let (i2, p2) = choose|i2: int, p2: int|
                                0 <= i2 < pre.blocks.len() && 0 <= p2 < pre.blocks[i2].parents.len()
                                    && pre.blocks[i2].id == a && #[trigger] pre.blocks[i2].parents[
                                p2] == b;
                            assert(final(self)@.blocks[i2].parents[p2] == b);
                        }
                    }
                }
                assert forall|a: int, b: int|
                    0 <= a < final(self)@.blocks.len() && 0 <= b < final(self)@.blocks.len() && a
                        != b implies final(self)@.blocks[a].id != final(self)@.blocks[b].id by {
                    assert(final(self)@.blocks[a].id == pre.blocks[a].id);
                    assert(final(self)@.blocks[b].id == pre.blocks[b].id);
                }
                assert forall|i2: int|
                    0 <= i2 < final(self)@.rels.len() implies final(self)@.has_block(
                    #[trigger] final(self)@.rels[i2].from,
                ) && final(self)@.has_block(final(self)@.rels[i2].to) by {
                    let a = choose|a: int|
                        0 <= a < pre.blocks.len() && pre.blocks[a].id == pre.rels[i2].from;
                    assert(final(self)@.blocks[a].id == pre.rels[i2].from);
                    let b = choose|b: int|
                        0 <= b < pre.blocks.len() && pre.blocks[b].id == pre.rels[i2].to;
                    assert(final(self)@.blocks[b].id == pre.rels[i2].to);
                }
                assert forall|i2: int, p: int|
                    0 <= i2 < final(self)@.blocks.len() && 0 <= p < final(self)@.blocks[i2].parents.len() implies final(self)@.has_block(
                    #[trigger] final(self)@.blocks[i2].parents[p],
                ) by {
                    assert(final(self)@.blocks[i2].parents == pre.blocks[i2].parents);
                    assert(pre.has_block(pre.blocks[i2].parents[p]));
                    let a = choose|a: int|
                        0 <= a < pre.blocks.len() && pre.blocks[a].id == pre.blocks[i2].parents[p];
                    assert(final(self)@.blocks[a].id == pre.blocks[i2].parents[p]);
                }
                assert forall|i2: int|
                    0 <= i2 < final(self)@.blocks.len() implies (#[trigger] final(self)@.blocks[i2]).confidence <= 100 by {
                    assert(final(self)@.blocks[i2].confidence == pre.blocks[i2].confidence);
                }
            }
        }
        Ok(())
    }

    /// Inserts a block after checking that every declared parent exists
    /// and that the new parent links keep the parent graph acyclic, then
    /// recomputes the cluster. A block with a known id overwrites the
    /// stored record, which is when a parent could otherwise come to reach
    /// back to its unit. The first missing parent is reported with
    /// `ParentNotFound`, the first parent that reaches back with
    /// `CycleDetected`, and nothing is mutated then.
    pub fn add_block(&mut self, block: Block) -> (r: Result<(), Error>)
        requires
            old(self)@.wf(),
            block@.confidence <= 100,
        ensures
            final(self)@.wf(),
            final(self)@.rels == old(self)@.rels,
            final(self)@.peers == old(self)@.peers,
            final(self)@.min_confidence == old(self)@.min_confidence,
            match r {
                Ok(()) => (forall|p: int|
                    0 <= p < block@.parents.len() ==> old(self)@.has_block(
                        #[trigger] block@.parents[p],
                    )) && (forall|p: int|
                    0 <= p < block@.parents.len() ==> !reaches(
                        parent_graph_except(old(self)@.blocks, block@.id),
                        #[trigger] block@.parents[p],
                        block@.id,
                    )) && final(self)@.k == resize_k(old(self)@.k, old(self)@.peers) && ((old(self)@.has_block(block@.id) && exists|bi: int|
                    0 <= bi < old(self)@.blocks.len() && (#[trigger] old(self)@.blocks[bi]).id
                        == block@.id && final(self)@.blocks == with_cluster_flags(
                        old(self)@.blocks.update(bi, block@),
                        final(self)@.k,
                    )) || (!old(self)@.has_block(block@.id) && final(self)@.blocks
                    == with_cluster_flags(old(self)@.blocks.push(block@), final(self)@.k)))
                    && cluster_size(final(self)@.blocks) == if final(self)@.k <= final(self)@.blocks.len() {
                    final(self)@.k
                } else {
                    final(self)@.blocks.len() as int
                },
                Err(e) => final(self)@ == old(self)@ && match e {
                    Error::ParentNotFound(p) => exists|j: int|
                        0 <= j < block@.parents.len() && p@ == #[trigger] block@.parents[j] && !old(
                            self,
                        )@.has_block(block@.parents[j]) && (forall|w: int|
                            0 <= w < j ==> old(self)@.has_block(#[trigger] block@.parents[w])),
                    Error::CycleDetected { from, to } => from@ == block@.id && (forall|w: int|
                        0 <= w < block@.parents.len() ==> old(self)@.has_block(
                            #[trigger] block@.parents[w],
                        )) && (exists|j: int|
                        0 <= j < block@.parents.len() && to@ == #[trigger] block@.parents[j]
                            && reaches(
                            parent_graph_except(old(self)@.blocks, block@.id),
                            block@.parents[j],
                            block@.id,
                        ) && (forall|w: int|
                            0 <= w < j ==> !reaches(
                                parent_graph_except(old(self)@.blocks, block@.id),
                                #[trigger] block@.parents[w],
                                block@.id,
                            ))),
                    _ => false,
                },
            },
    {
        let ghost pre = old(self)@;
        // every declared parent must already be stored
        let mut p: usize = 0;
        while p < block.parents.len()
            invariant
                self@ == pre,
                pre.wf(),
                p <= block@.parents.len(),
                forall|w: int| 0 <= w < p ==> pre.has_block(#[trigger] block@.parents[w]),
            decreases block@.parents.len() - p,
        {
            if find_block_ix(&self.blocks, &block.parents[p]).is_none() {
                assert(!pre.has_block(block@.parents[p as int]));
                assert(final(self)@ =~= pre);
                return Err(Error::ParentNotFound(block.parents[p].clone()));
            }
            p = p + 1;
        }
        // the new parent links must keep the parent graph acyclic: no
        // declared parent may already reach this id through parent links
        // of the other blocks
        let ghost x = block@.id;
        let ghost mx = parent_graph_except(pre.blocks, x);
        let pe = parent_link_edges_except(&self.blocks, &block.id);
        proof {
            crate::reach::lemma_same_edges_same_reach(rel_map(edge_views(pe@)), mx);
        }
        let nparents = block.parents.len();
        let mut pj: usize = 0;
        while pj < nparents
            invariant
                self@ == pre,
                pre.wf(),
                x == block@.id,
                mx == parent_graph_except(pre.blocks, x),
                forall|a: Seq<char>, b: Seq<char>| #[trigger]
                    reaches(rel_map(edge_views(pe@)), a, b) <==> reaches(mx, a, b),
                nparents == block@.parents.len(),
                pj <= nparents,
                forall|w: int| 0 <= w < pj ==> !reaches(mx, #[trigger] block@.parents[w], x),
                forall|w: int| 0 <= w < nparents ==> pre.has_block(#[trigger] block@.parents[w]),
            decreases nparents - pj,
        {
            if would_create_cycle(&pe, &block.id, &block.parents[pj]) {
                assert(reaches(mx, block@.parents[pj as int], x));
                assert(final(self)@ =~= pre);
                return Err(
                    Error::CycleDetected {
                        from: block.id.clone(),
                        to: block.parents[pj].clone(),
                    },
                );
            }
            assert(!reaches(mx, block@.parents[pj as int], x));
            pj = pj + 1;
        }
        // store the block, overwriting a record with the same id
        let ghost base: Seq<BlockV>;
        let ghost ins: int;
        match find_block_ix(&self.blocks, &block.id) {
            Some(i) => {
                proof {
                    base = pre.blocks.update(i as int, block@);
                    ins = i as int;
                }
                self.blocks[i] = block;
                assert(self@.blocks =~= base);
                proof {
                    assert(pre.blocks[ins].id == x);
                    assert forall|i2: int|
                        0 <= i2 < self@.blocks.len() && i2 != ins implies self@.blocks[i2]
                        == pre.blocks[i2] && self@.blocks[i2].id != x by {
                        assert(pre.blocks[i2].id != pre.blocks[ins].id);
                    }
                }
            },
            None => {
                proof {
                    base = pre.blocks.push(block@);
                    ins = pre.blocks.len() as int;
                }
                self.blocks.push(block);
                assert(self@.blocks =~= base);
                proof {
                    assert forall|i2: int|
                        0 <= i2 < self@.blocks.len() && i2 != ins implies self@.blocks[i2]
                        == pre.blocks[i2] && self@.blocks[i2].id != x by {
                        if pre.blocks[i2].id == x {
                            assert(pre.has_block(x));
                        }
                    }
                }
            },
        }
        assert(0 <= ins < self@.blocks.len() && self@.blocks[ins] == block@);
        assert(forall|i2: int|
            0 <= i2 < self@.blocks.len() && i2 != ins ==> #[trigger] self@.blocks[i2]
                == pre.blocks[i2] && self@.blocks[i2].id != x);
        assert(forall|i2: int|
            0 <= i2 < pre.blocks.len() && (#[trigger] pre.blocks[i2]).id != x
                ==> 0 <= i2 < self@.blocks.len() && self@.blocks[i2] == pre.blocks[i2]);
        // the intermediate state is well-formed: the new block's parents
        // exist and every old id is still present
        proof {
            assert(self@.wf()) by {
                assert(unique_block_ids(self@.blocks)) by {
                    assert forall|a: int, b: int|
                        0 <= a < self@.blocks.len() && 0 <= b < self@.blocks.len() && a
                            != b implies self@.blocks[a].id != self@.blocks[b].id by {
                        if a < pre.blocks.len() && b < pre.blocks.len() && self@.blocks[a]
                            == pre.blocks[a] && self@.blocks[b] == pre.blocks[b] {
                            assert(pre.blocks[a].id != pre.blocks[b].id);
                        }
                    }
                }
                assert forall|w: int|
                    0 <= w < pre.blocks.len() implies self@.has_block(
                    #[trigger] pre.blocks[w].id,
                ) by {
                    assert(self@.blocks[w].id == pre.blocks[w].id);
                }
                assert forall|i2: int|
                    0 <= i2 < self@.rels.len() implies self@.has_block(
                    #[trigger] self@.rels[i2].from,
                ) && self@.has_block(self@.rels[i2].to) by {
                    let a = choose|a: int|
                        0 <= a < pre.blocks.len() && pre.blocks[a].id == pre.rels[i2].from;
                    assert(self@.has_block(pre.blocks[a].id));
                    let b = choose|b: int|
                        0 <= b < pre.blocks.len() && pre.blocks[b].id == pre.rels[i2].to;
                    assert(self@.has_block(pre.blocks[b].id));
                }
                assert forall|i2: int, q: int|
                    0 <= i2 < self@.blocks.len() && 0 <= q < self@.blocks[i2].parents.len() implies
                    self@.has_block(#[trigger] self@.blocks[i2].parents[q]) by {
                    if self@.blocks[i2] == block@ {
                        let a = choose|a: int|
                            0 <= a < pre.blocks.len() && pre.blocks[a].id == block@.parents[q];
                        assert(self@.has_block(pre.blocks[a].id));
                    } else {
                        assert(self@.blocks[i2] == pre.blocks[i2]);
                        assert(pre.has_block(pre.blocks[i2].parents[q]));
                        let a = choose|a: int|
                            0 <= a < pre.blocks.len() && pre.blocks[a].id
                                == pre.blocks[i2].parents[q];
                        assert(self@.has_block(pre.blocks[a].id));
                    }
                }
                // the parent graph stays acyclic: the new links all leave
                // this id, and none of their targets reaches back to it
                let ts = block@.parents.to_set();
                let m2 = parent_graph(self@.blocks);
                assert forall|a: Seq<char>, b: Seq<char>| #[trigger]
                    has_edge(m2, a, b) <==> (has_edge(mx, a, b) || (a == x && ts.contains(b))) by {
                    if has_edge(m2, a, b) {
                        let (i2, p2) = choose|i2: int, p2: int|
                            0 <= i2 < self@.blocks.len() && 0 <= p2 < self@.blocks[i2].parents.len()
                                && self@.blocks[i2].id == a && #[trigger] self@.blocks[i2].parents[
                            p2] == b;
                        if i2 == ins {
                            assert(a == x);
                            assert(block@.parents[p2] == b);
                            assert(block@.parents.contains(b));
                            assert(ts.contains(b));
                        } else {
                            assert(self@.blocks[i2] == pre.blocks[i2] && a != x);
                            assert(pre.blocks[i2].parents[p2] == b);
                            assert(parent_edge(pre.blocks, a, b));
                            assert(has_edge(mx, a, b));
                        }
                    }
                    if has_edge(mx, a, b) {
                        assert(a != x && parent_edge(pre.blocks, a, b));
                        let (i2, p2) = choose|i2: int, p2: int|
                            0 <= i2 < pre.blocks.len() && 0 <= p2 < pre.blocks[i2].parents.len()
                                && pre.blocks[i2].id == a && #[trigger] pre.blocks[i2].parents[p2]
                                == b;
                        assert(self@.blocks[i2] == pre.blocks[i2]);
                        assert(self@.blocks[i2].parents[p2] == b);
                        assert(parent_edge(self@.blocks, a, b));
                    }
                    if a == x && ts.contains(b) {
                        assert(block@.parents.contains(b));
                        let p2 = choose|p2: int|
                            0 <= p2 < block@.parents.len() && block@.parents[p2] == b;
                        assert(self@.blocks[ins].parents[p2] == b);
                        assert(parent_edge(self@.blocks, a, b));
                    }
                }
                assert forall|a: Seq<char>, b: Seq<char>|
                    has_edge(mx, a, b) implies #[trigger] has_edge(
                    parent_graph(pre.blocks),
                    a,
                    b,
                ) by {}
                crate::reach::lemma_edge_subset_acyclic(mx, parent_graph(pre.blocks));
                assert(!ts.contains(x)) by {
                    if ts.contains(x) {
                        assert(block@.parents.contains(x));
                        let w = choose|w: int|
                            0 <= w < block@.parents.len() && block@.parents[w] == x;
                        crate::reach::lemma_reaches_refl(mx, x);
                        assert(!reaches(mx, block@.parents[w], x));
                    }
                }
                assert forall|t: Seq<char>| ts.contains(t) implies !reaches(mx, t, x) by {
                    assert(block@.parents.contains(t));
                    let w = choose|w: int| 0 <= w < block@.parents.len() && block@.parents[w] == t;
                    assert(!reaches(mx, block@.parents[w], x));
                }
                crate::reach::lemma_add_out_edges_acyclic(mx, m2, x, ts);
                assert(acyclic(parent_graph(self@.blocks)));
            }
        }
        self.update_k_clusters()?;
        Ok(())
    }

    /// The recursive step of the path enumeration: all simple paths from
    /// `current` to `target` whose entries after the first avoid every id
    /// already on the walk. Sound and complete, with no repeats: the
    /// returned vector holds exactly those paths, each once.
    fn paths_from(&self, current: &String, target: &String, visited: &Vec<String>) -> (r: Vec<
        Vec<String>,
    >)
        requires
            self@.wf(),
            id_views(visited@).contains(current@),
            id_views(visited@).no_duplicates(),
            forall|j: int|
                0 <= j < visited@.len() ==> self@.has_block(#[trigger] id_views(visited@)[j]),
        ensures
            forall|i: int|
                0 <= i < r@.len() ==> avoiding_path(
                    self@.rels_map(),
                    id_views(#[trigger] r@[i]@),
                    current@,
                    target@,
                    id_views(visited@).to_set(),
                ),
            forall|q: Seq<Seq<char>>|
                avoiding_path(self@.rels_map(), q, current@, target@, id_views(visited@).to_set())
                    ==> exists|i: int| 0 <= i < r@.len() && id_views(#[trigger] r@[i]@) == q,
            distinct_paths(r@),
        decreases self@.blocks.len() - id_views(visited@).len(),
    {
        let ghost m = self@.rels_map();
        let ghost vs = id_views(visited@).to_set();
        let mut results: Vec<Vec<String>> = Vec::new();
        if *current == *target {
            let mut single: Vec<String> = Vec::new();
            single.push(current.clone());
            results.push(single);
            proof {
                let q0 = id_views(results@[0]@);
                assert(q0 =~= seq![current@]);
                assert(is_path(m, q0));
                assert(q0.no_duplicates());
                assert(avoiding_path(m, q0, current@, target@, vs));
                // no longer simple path exists: its last entry would repeat
                // its first
                assert forall|q: Seq<Seq<char>>|
                    avoiding_path(m, q, current@, target@, vs) implies exists|i: int|
                    0 <= i < results@.len() && id_views(#[trigger] results@[i]@) == q by {
                    if q.len() >= 2 {
                        assert(q[0] == current@ && q[q.len() - 1] == current@);
                        assert(!q.no_duplicates());
                    } else {
                        assert(q =~= q0);
                        assert(id_views(results@[0]@) == q);
                    }
                }
            }
            return results;
        }
        // explore each stored edge leaving `current`
        let n = self.edges.len();
        let mut j: usize = 0;
        while j < n
            invariant
                self@.wf(),
                m == self@.rels_map(),
                vs == id_views(visited@).to_set(),
                id_views(visited@).contains(current@),
                id_views(visited@).no_duplicates(),
                forall|w: int|
                    0 <= w < visited@.len() ==> self@.has_block(#[trigger] id_views(visited@)[w]),
                current@ != target@,
                n == self@.rels.len(),
                j <= n,
                forall|i: int|
                    0 <= i < results@.len() ==> avoiding_path(
                        m,
                        id_views(#[trigger] results@[i]@),
                        current@,
                        target@,
                        vs,
                    ),
                forall|q: Seq<Seq<char>>|
                    avoiding_path(m, q, current@, target@, vs) && q.len() >= 2 && (exists|w: int|
                        0 <= w < j && edge_key(#[trigger] self@.rels[w]) == (current@, q[1]))
                        ==> exists|i: int|
                        0 <= i < results@.len() && id_views(#[trigger] results@[i]@) == q,
                distinct_paths(results@),
                forall|i: int|
                    0 <= i < results@.len() ==> id_views(#[trigger] results@[i]@).len() >= 2 && (
                    exists|w: int|
                        0 <= w < j && edge_key(#[trigger] self@.rels[w]) == (
                        current@,
                        id_views(results@[i]@)[1],
                    )),
            decreases n - j,
        {
            let ghost pre_results = results@;
            if self.edges[j].from == *current {
                let next = &self.edges[j].to;
                assert(self@.rels[j as int].from == current@ && self@.rels[j as int].to == next@);
                if !contains_id(visited, next) {
                    assert(self@.has_block(next@));
                    proof {
                        lemma_rel_map_contains(self@.rels);
                        assert(edge_key(self@.rels[j as int]) == (current@, next@));
                        assert(has_edge(m, current@, next@));
                    }
                    let mut v2 = crate::types::clone_string_vec(visited);
                    v2.push(next.clone());
                    proof {
                        assert(id_views(v2@) =~= id_views(visited@).push(next@));
                        assert(id_views(v2@).no_duplicates());
                        assert(id_views(v2@).contains(next@)) by {
                            assert(id_views(v2@)[id_views(v2@).len() - 1] == next@);
                        }
                        assert forall|w: int|
                            0 <= w < v2@.len() implies self@.has_block(
                            #[trigger] id_views(v2@)[w],
                        ) by {
                            if w < visited@.len() {
                                assert(id_views(v2@)[w] == id_views(visited@)[w]);
                            }
                        }
                        // one more distinct block id is on the walk, so the
                        // recursion is on a strictly smaller budget
                        lemma_ids_bound(self@.blocks, id_views(v2@));
                    }
                    let sub = self.paths_from(next, target, &v2);
                    let ghost vs2 = id_views(v2@).to_set();
                    // prepend `current` to every returned continuation
                    let mut w: usize = 0;
                    while w < sub.len()
                        invariant
                            self@.wf(),
                            m == self@.rels_map(),
                            vs == id_views(visited@).to_set(),
                            vs2 == id_views(v2@).to_set(),
                            id_views(v2@) == id_views(visited@).push(next@),
                            !id_views(visited@).contains(next@),
                            id_views(visited@).contains(current@),
                            current@ != target@,
                            has_edge(m, current@, next@),
                            j < n,
                            n == self@.rels.len(),
                            self@.rels[j as int].from == current@,
                            self@.rels[j as int].to == next@,
                            distinct_paths(sub@),
                            w <= sub@.len(),
                            forall|i: int|
                                0 <= i < sub@.len() ==> avoiding_path(
                                    m,
                                    id_views(#[trigger] sub@[i]@),
                                    next@,
                                    target@,
                                    vs2,
                                ),
                            results@.len() == pre_results.len() + w,
                            forall|i: int|
                                0 <= i < pre_results.len() ==> results@[i] == pre_results[i],
                            forall|i: int|
                                0 <= i < w ==> id_views(
                                    #[trigger] results@[pre_results.len() + i]@,
                                ) == seq![current@] + id_views(sub@[i]@),
                            forall|i: int|
                                0 <= i < results@.len() ==> avoiding_path(
                                    m,
                                    id_views(#[trigger] results@[i]@),
                                    current@,
                                    target@,
                                    vs,
                                ),
                            distinct_paths(results@),
                            forall|i: int|
                                0 <= i < pre_results.len() ==> id_views(
                                    #[trigger] results@[i]@,
                                ).len() >= 2 && (exists|wx: int|
                                    0 <= wx < j && edge_key(#[trigger] self@.rels[wx]) == (
                                    current@,
                                    id_views(results@[i]@)[1],
                                )),
                            forall|i: int|
                                pre_results.len() <= i < results@.len() ==> id_views(
                                    #[trigger] results@[i]@,
                                ).len() >= 2 && id_views(results@[i]@)[1] == next@,
                        decreases sub@.len() - w,
                    {
                        let mut path: Vec<String> = Vec::new();
                        path.push(current.clone());
                        let mut tail = crate::types::clone_string_vec(&sub[w]);
                        path.append(&mut tail);
                        proof {
                            let qsub = id_views(sub@[w as int]@);
                            let q = id_views(path@);
                            assert(q =~= seq![current@] + qsub);
                            assert(avoiding_path(m, qsub, next@, target@, vs2));
                            // the prepended walk is again a simple path from
                            // `current`, avoiding the caller's visited set
                            assert(q[0] == current@ && q.len() == qsub.len() + 1);
                            assert forall|i: int| 0 <= i < q.len() - 1 implies has_edge(
                                m,
                                #[trigger] q[i],
                                q[i + 1],
                            ) by {
                                if i == 0 {
                                    assert(q[0] == current@ && q[1] == qsub[0]);
                                    assert(qsub[0] == next@);
                                } else {
                                    assert(q[i] == qsub[i - 1] && q[i + 1] == qsub[i]);
                                }
                            }
                            assert(q.no_duplicates()) by {
                                // nothing after the head equals `current`: the
                                // continuation starts at the fresh id `next`
                                // and then avoids the grown visited set
                                assert forall|a: int, b: int|
                                    0 <= a < q.len() && 0 <= b < q.len() && a != b implies q[a]
                                    != q[b] by {
                                    if a == 0 && b > 0 {
                                        assert(q[b] == qsub[b - 1]);
                                        if b == 1 {
                                            assert(qsub[0] == next@);
                                        } else {
                                            assert(!vs2.contains(qsub[b - 1]));
                                            assert(vs2.contains(current@)) by {
                                                let c = choose|c: int|
                                                    0 <= c < visited@.len() && id_views(visited@)[c]
                                                        == current@;
                                                assert(id_views(v2@)[c] == current@);
                                            }
                                        }
                                    } else if b == 0 && a > 0 {
                                        assert(q[a] == qsub[a - 1]);
                                        if a == 1 {
                                            assert(qsub[0] == next@);
                                        } else {
                                            assert(!vs2.contains(qsub[a - 1]));
                                            assert(vs2.contains(current@)) by {
                                                let c = choose|c: int|
                                                    0 <= c < visited@.len() && id_views(visited@)[c]
                                                        == current@;
                                                assert(id_views(v2@)[c] == current@);
                                            }
                                        }
                                    } else if a > 0 && b > 0 {
                                        assert(q[a] == qsub[a - 1] && q[b] == qsub[b - 1]);
                                    }
                                }
                            }
                            assert forall|i: int| 1 <= i < q.len() implies !vs.contains(
                                #[trigger] q[i],
                            ) by {
                                assert(q[i] == qsub[i - 1]);
                                if i == 1 {
                                    assert(qsub[0] == next@);
                                    if vs.contains(next@) {
                                        let c = choose|c: int|
                                            0 <= c < visited@.len() && id_views(visited@)[c]
                                                == next@;
                                    }
                                } else {
                                    assert(!vs2.contains(qsub[i - 1]));
                                    assert forall|x: Seq<char>| vs.contains(x) implies vs2.contains(
                                        x,
                                    ) by {
                                        let c = choose|c: int|
                                            0 <= c < visited@.len() && id_views(visited@)[c] == x;
                                        assert(id_views(v2@)[c] == x);
                                    }
                                }
                            }
                            assert(avoiding_path(m, q, current@, target@, vs));
                            assert(q[1] == next@) by {
                                assert(q[1] == qsub[0] && qsub.first() == next@);
                            }
                        }
                        let ghost before_push = results@;
                        results.push(path);
                        proof {
                            // the new entry differs from every earlier one:
                            // earlier batches leave `current` through another
                            // edge, and within this batch the continuations
                            // are pairwise distinct
                            let last = results@.len() - 1;
                            let q = id_views(results@[last]@);
                            let qsub = id_views(sub@[w as int]@);
                            assert(q == seq![current@] + qsub);
                            assert forall|i: int| 0 <= i < last implies id_views(
                                #[trigger] results@[i]@,
                            ) != q by {
                                if i < pre_results.len() {
                                    if id_views(results@[i]@) == q {
                                        let wx = choose|wx: int|
                                            0 <= wx < j && edge_key(#[trigger] self@.rels[wx]) == (
                                            current@,
                                            id_views(results@[i]@)[1],
                                        );
                                        assert(id_views(results@[i]@)[1] == next@);
                                        assert(edge_key(self@.rels[wx]) == edge_key(
                                            self@.rels[j as int],
                                        ));
                                    }
                                } else {
                                    let ii = i - pre_results.len();
                                    assert(results@[i] == before_push[i]);
                                    assert(id_views(before_push[pre_results.len() + ii]@)
                                        == seq![current@] + id_views(sub@[ii]@));
                                    assert(id_views(results@[i]@) == seq![current@] + id_views(
                                        sub@[ii]@,
                                    ));
                                    if id_views(results@[i]@) == q {
                                        assert(id_views(sub@[ii]@) =~= qsub) by {
                                            assert(id_views(sub@[ii]@).len() == qsub.len());
                                            assert forall|k: int|
                                                0 <= k < qsub.len() implies id_views(
                                                sub@[ii]@,
                                            )[k] == qsub[k] by {
                                                assert((seq![current@] + id_views(sub@[ii]@))[k + 1]
                                                    == id_views(sub@[ii]@)[k]);
                                                assert((seq![current@] + qsub)[k + 1] == qsub[k]);
                                            }
                                        }
                                        assert(id_views(sub@[ii]@) != id_views(sub@[w as int]@));
                                    }
                                }
                            }
                            assert(distinct_paths(results@)) by {
                                assert forall|a: int, b: int|
                                    0 <= a < results@.len() && 0 <= b < results@.len() && a
                                        != b implies id_views(results@[a]@) != id_views(
                                    results@[b]@,
                                ) by {
                                    if a < last && b < last {
                                        assert(results@[a] == before_push[a]);
                                        assert(results@[b] == before_push[b]);
                                    }
                                }
                            }
                        }
                        w = w + 1;
                    }
                    proof {
                        // every continuation through this edge is now present
                        assert forall|q: Seq<Seq<char>>|
                            avoiding_path(m, q, current@, target@, vs) && q.len() >= 2 && q[1]
                                == next@ implies exists|i: int|
                            0 <= i < results@.len() && id_views(#[trigger] results@[i]@) == q by {
                            let qsub = q.drop_first();
                            assert(qsub.len() == q.len() - 1 >= 1);
                            assert forall|i: int| 0 <= i < qsub.len() - 1 implies has_edge(
                                m,
                                #[trigger] qsub[i],
                                qsub[i + 1],
                            ) by {
                                assert(qsub[i] == q[i + 1] && qsub[i + 1] == q[i + 2]);
                            }
                            assert(qsub.first() == next@ && qsub.last() == target@);
                            assert(qsub.no_duplicates()) by {
                                assert forall|a: int, b: int|
                                    0 <= a < qsub.len() && 0 <= b < qsub.len() && a != b implies
                                    qsub[a] != qsub[b] by {
                                    assert(qsub[a] == q[a + 1] && qsub[b] == q[b + 1]);
                                }
                            }
                            assert forall|i: int| 1 <= i < qsub.len() implies !vs2.contains(
                                #[trigger] qsub[i],
                            ) by {
                                assert(qsub[i] == q[i + 1]);
                                assert(!vs.contains(q[i + 1]));
                                assert(q[i + 1] != next@) by {
                                    assert(q[1] == next@);
                                }
                                if vs2.contains(q[i + 1]) {
                                    let c = choose|c: int|
                                        0 <= c < v2@.len() && id_views(v2@)[c] == q[i + 1];
                                    if c < visited@.len() {
                                        assert(id_views(visited@)[c] == q[i + 1]);
                                    } else {
                                        assert(id_views(v2@)[c] == next@);
                                    }
                                }
                            }
                            assert(avoiding_path(m, qsub, next@, target@, vs2));
                            let i0 = choose|i: int|
                                0 <= i < sub@.len() && id_views(#[trigger] sub@[i]@) == qsub;
                            assert(id_views(results@[pre_results.len() + i0]@) == seq![current@]
                                + qsub);
                            assert(seq![current@] + qsub =~= q);
                        }
                    }
                } else {
                    proof {
                        // a path through this edge would revisit `next`
                        assert forall|q: Seq<Seq<char>>|
                            avoiding_path(m, q, current@, target@, vs) && q.len() >= 2 && q[1]
                                == next@ implies exists|i: int|
                            0 <= i < results@.len() && id_views(#[trigger] results@[i]@) == q by {
                            assert(!vs.contains(q[1]));
                            let c = choose|c: int|
                                0 <= c < visited@.len() && id_views(visited@)[c] == next@;
                            assert(vs.contains(next@));
                        }
                    }
                }
            }
            j = j + 1;
            proof {
                // the per-edge guarantees extend to the next scan bound:
                // either the edge at the old bound starts elsewhere, or its
                // continuations were just added
                assert forall|q: Seq<Seq<char>>|
                    avoiding_path(m, q, current@, target@, vs) && q.len() >= 2 && (exists|w: int|
                        0 <= w < j && edge_key(#[trigger] self@.rels[w]) == (
                        current@,
                        q[1],
                    )) implies exists|i: int|
                    0 <= i < results@.len() && id_views(#[trigger] results@[i]@) == q by {
                    let w = choose|w: int|
                        0 <= w < j && edge_key(#[trigger] self@.rels[w]) == (current@, q[1]);
                    if w < j - 1 {
                        let i = choose|i: int|
                            0 <= i < pre_results.len() && id_views(#[trigger] pre_results[i]@) == q;
                        assert(id_views(results@[i]@) == q);
                    }
                }
            }
        }
        proof {
            // a surviving candidate must leave `current` through some stored
            // edge, and every stored edge was scanned
            lemma_rel_map_contains(self@.rels);
            assert forall|q: Seq<Seq<char>>|
                avoiding_path(m, q, current@, target@, vs) implies exists|i: int|
                0 <= i < results@.len() && id_views(#[trigger] results@[i]@) == q by {
                if q.len() == 1 {
                    assert(q[0] == current@ && q[0] == target@);
                } else {
                    assert(has_edge(m, q[0], q[1]));
                    assert(exists|w: int|
                        0 <= w < self@.rels.len() && #[trigger] edge_key(self@.rels[w]) == (
                        current@,
                        q[1],
                    ));
                }
            }
        }
        results
    }

    /// Enumerates every simple path (no repeated block) from `from` to `to`
    /// along the stored edges, or `NodeNotFound` when either endpoint is
    /// absent. The result holds exactly the simple paths, each as its list
    /// of block ids. Exponential in the worst case: meant for small graphs
    /// and debugging, not a hot path.
    #[verifier::rlimit(30)]
    pub fn find_paths(&self, from: &String, to: &String) -> (r: Result<Vec<Vec<String>>, Error>)
        requires
            self@.wf(),
        ensures
            match r {
                Ok(paths) => self@.has_block(from@) && self@.has_block(to@) && all_simple_paths(
                    self@.rels_map(),
                    paths@,
                    from@,
                    to@,
                ),
                Err(e) => (e matches Error::NodeNotFound(id) && ((id@ == from@ && !self@.has_block(
                    from@,
                )) || (id@ == to@ && self@.has_block(from@) && !self@.has_block(to@)))),
            },
    {
        match find_block_ix(&self.blocks, from) {
            Some(i) => {
                assert(self@.blocks[i as int].id == from@);
            },
            None => {
                return Err(Error::NodeNotFound(from.clone()));
            },
        }
        match find_block_ix(&self.blocks, to) {
            Some(i) => {
                assert(self@.blocks[i as int].id == to@);
            },
            None => {
                return Err(Error::NodeNotFound(to.clone()));
            },
        }
        let mut visited: Vec<String> = Vec::new();
        visited.push(from.clone());
        proof {
            assert(id_views(visited@) =~= seq![from@]);
            assert(id_views(visited@)[0] == from@);
        }
        let r = self.paths_from(from, to, &visited);
        proof {
            let m = self@.rels_map();
            let vs = id_views(visited@).to_set();
            // with only the start on the walk, avoiding it is the same as
            // being a simple path: a repeat of the start is a repeat
            assert forall|q: Seq<Seq<char>>|
                simple_path(m, q, from@, to@) implies avoiding_path(m, q, from@, to@, vs) by {
                assert forall|i: int| 1 <= i < q.len() implies !vs.contains(#[trigger] q[i]) by {
                    if vs.contains(q[i]) {
                        let c = choose|c: int|
                            0 <= c < visited@.len() && id_views(visited@)[c] == q[i];
                        assert(q[i] == from@ && q[0] == from@);
                        assert(!q.no_duplicates());
                    }
                }
            }
            assert(all_simple_paths(self@.rels_map(), r@, from@, to@));
        }
        Ok(r)
    }

    /// Returns snapshots of the stored edges leaving the given block, in
    /// insertion order, or `NodeNotFound` when the block is absent.
    pub fn outgoing_edges(&self, node_id: &String) -> (r: Result<Vec<Edge>, Error>)
        ensures
            match r {
                Ok(v) => self@.has_block(node_id@) && edge_views(v@) == outgoing(
                    self@.rels,
                    node_id@,
                ),
                Err(e) => !self@.has_block(node_id@) && (e matches Error::NodeNotFound(p) && p@
                    == node_id@),
            },
    {
        if find_block_ix(&self.blocks, node_id).is_none() {
            return Err(Error::NodeNotFound(node_id.clone()));
        }
        let mut out: Vec<Edge> = Vec::new();
        let mut i: usize = 0;
        proof {
            reveal(Seq::filter);
            assert(edge_views(out@) =~= outgoing(self@.rels.take(0), node_id@));
        }
        while i < self.edges.len()
            invariant
                i <= self.edges@.len(),
                edge_views(out@) =~= outgoing(self@.rels.take(i as int), node_id@),
            decreases self.edges@.len() - i,
        {
            let ghost prev = self@.rels.take(i as int);
            let ghost pre_out = out@;
            if self.edges[i].from == *node_id {
                let e = self.edges[i].clone();
                assert(e@ == self@.rels[i as int]);
                out.push(e);
                assert(edge_views(out@) =~= edge_views(pre_out).push(self@.rels[i as int]));
            }
            i = i + 1;
            proof {
                assert(self@.rels.take(i as int).drop_last() =~= prev);
                assert(self@.rels.take(i as int).last() == self@.rels[i - 1]);
                reveal(Seq::filter);
                assert(edge_views(out@) =~= outgoing(self@.rels.take(i as int), node_id@));
            }
        }
        assert(self@.rels.take(self.edges@.len() as int) =~= self@.rels);
        Ok(out)
    }
}

} // verus!
