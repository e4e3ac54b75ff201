//! Entity model: blocks (the units of the graph), network nodes (peers) and
//! edges (directed relations between blocks), with their spec-level views.
//!
//! Real-valued quantities of the wire format are carried here as fixed-point
//! integers: delays in milliseconds (`1000` is one second of delay) and edge
//! weights in thousandths. Timestamps are milliseconds supplied by the caller,
//! since reading a clock is the embedding application's business.

use vstd::prelude::*;

verus! {

/// Status of a network node (peer).
#[derive(Debug, Clone, Copy, PartialEq, Eq, Structural)]
pub enum NodeStatus {
    Active,
    Inactive,
    Validating,
    Syncing,
}

/// A block in the graph: the unit whose acceptance and confidence the core
/// tracks.
#[derive(Debug)]
pub struct Block {
    /// Unique identifier for the block.
    pub id: String,
    /// Hash of the block's content.
    pub hash: String,
    /// Ids of the parent blocks, all of which must exist at insertion time.
    pub parents: Vec<String>,
    /// Creation time in milliseconds, supplied by the submitter.
    pub timestamp: u64,
    /// Height of the block in the graph.
    pub height: u64,
    /// Confidence score in `[0, 100]`, propagated from parents and delay.
    pub confidence: u8,
    /// Whether the block currently belongs to the k-cluster.
    pub in_k_cluster: bool,
    /// Network delay measured for this block, in milliseconds.
    pub network_delay: u64,
}

/// Spec-level value of a [`Block`]: strings become character sequences.
#[verifier::ext_equal]
pub struct BlockV {
    pub id: Seq<char>,
    pub hash: Seq<char>,
    pub parents: Seq<Seq<char>>,
    pub timestamp: u64,
    pub height: u64,
    pub confidence: u8,
    pub in_k_cluster: bool,
    pub network_delay: u64,
}

impl View for Block {
    type V = BlockV;

    open spec fn view(&self) -> BlockV {
        BlockV {
            id: self.id@,
            hash: self.hash@,
            parents: self.parents.deep_view(),
            timestamp: self.timestamp,
            height: self.height,
            confidence: self.confidence,
            in_k_cluster: self.in_k_cluster,
            network_delay: self.network_delay,
        }
    }
}

/// A node of the network (a peer), whose validation activity and measured
/// delay feed the confidence and resize computations.
#[derive(Debug)]
pub struct Node {
    /// Unique identifier for the node.
    pub id: String,
    /// Network address of the node.
    pub address: String,
    /// Last time the node was seen, in milliseconds.
    pub last_seen: u64,
    /// Current status of the node.
    pub status: NodeStatus,
    /// Average network delay to this node, in milliseconds.
    pub avg_delay: u64,
    /// Number of blocks this node has validated.
    pub blocks_validated: u64,
}

/// Spec-level value of a [`Node`].
#[verifier::ext_equal]
pub struct NodeV {
    pub id: Seq<char>,
    pub address: Seq<char>,
    pub last_seen: u64,
    pub status: NodeStatus,
    pub avg_delay: u64,
    pub blocks_validated: u64,
}

impl View for Node {
    type V = NodeV;

    open spec fn view(&self) -> NodeV {
        NodeV {
            id: self.id@,
            address: self.address@,
            last_seen: self.last_seen,
            status: self.status,
            avg_delay: self.avg_delay,
            blocks_validated: self.blocks_validated,
        }
    }
}

/// A directed edge between two blocks, keyed by the pair `(from, to)`.
/// Immutable once accepted, except that re-inserting the same pair
/// overwrites the stored record.
#[derive(Debug)]
pub struct Edge {
    /// Id of the source block.
    pub from: String,
    /// Id of the target block.
    pub to: String,
    /// Optional weight of the edge, in thousandths.
    pub weight: Option<u64>,
    /// Creation time in milliseconds, supplied by the submitter.
    pub created_at: u64,
}

/// Spec-level value of an [`Edge`].
#[verifier::ext_equal]
pub struct EdgeV {
    pub from: Seq<char>,
    pub to: Seq<char>,
    pub weight: Option<u64>,
    pub created_at: u64,
}

impl View for Edge {
    type V = EdgeV;

    open spec fn view(&self) -> EdgeV {
        EdgeV { from: self.from@, to: self.to@, weight: self.weight, created_at: self.created_at }
    }
}

/// Clones a vector of strings, element for element.
pub(crate) fn clone_string_vec(v: &Vec<String>) -> (r: Vec<String>)
    ensures
        r@ == v@,
{
    let mut r: Vec<String> = Vec::new();
    let mut i: usize = 0;
    while i < v.len()
        invariant
            i <= v.len(),
            r@ =~= v@.take(i as int),
        decreases v.len() - i,
    {
        r.push(v[i].clone());
        i = i + 1;
        assert(r@ =~= v@.take(i as int));
    }
    assert(r@ =~= v@);
    r
}

impl Clone for Block {
    /// The clone is a snapshot: it has the same spec-level value.
    fn clone(&self) -> (r: Self)
        ensures
            r@ == self@,
    {
        let r = Block {
            id: self.id.clone(),
            hash: self.hash.clone(),
            parents: clone_string_vec(&self.parents),
            timestamp: self.timestamp,
            height: self.height,
            confidence: self.confidence,
            in_k_cluster: self.in_k_cluster,
            network_delay: self.network_delay,
        };
        assert(r@ =~= self@);
        r
    }
}

impl Clone for Node {
    /// The clone is a snapshot: it has the same spec-level value.
    fn clone(&self) -> (r: Self)
        ensures
            r@ == self@,
    {
        let r = Node {
            id: self.id.clone(),
            address: self.address.clone(),
            last_seen: self.last_seen,
            status: self.status,
            avg_delay: self.avg_delay,
            blocks_validated: self.blocks_validated,
        };
        assert(r@ =~= self@);
        r
    }
}

impl Clone for Edge {
    /// The clone is a snapshot: it has the same spec-level value.
    fn clone(&self) -> (r: Self)
        ensures
            r@ == self@,
    {
        let r = Edge {
            from: self.from.clone(),
            to: self.to.clone(),
            weight: self.weight,
            created_at: self.created_at,
        };
        assert(r@ =~= self@);
        r
    }
}

impl Block {
    /// Creates a fresh block: zero confidence, zero measured delay, not in
    /// the k-cluster.
    pub fn new(id: String, hash: String, parents: Vec<String>, height: u64, timestamp: u64) -> (r:
        Self)
        ensures
            r@.id == id@,
            r@.hash == hash@,
            r@.parents == parents.deep_view(),
            r@.timestamp == timestamp,
            r@.height == height,
            r@.confidence == 0,
            r@.in_k_cluster == false,
            r@.network_delay == 0,
    {
        Block {
            id,
            hash,
            parents,
            timestamp,
            height,
            confidence: 0,
            in_k_cluster: false,
            network_delay: 0,
        }
    }

    /// Sets the confidence score, clamped to at most 100.
    pub fn update_confidence(&mut self, score: u8)
        ensures
            *final(self) == (Block {
                confidence: if score <= 100 { score } else { 100 },
                ..*old(self)
            }),
    {
        self.confidence = if score <= 100 {
            score
        } else {
            100
        };
    }

    /// Records a new network delay measurement, in milliseconds.
    pub fn update_network_delay(&mut self, delay: u64)
        ensures
            *final(self) == (Block { network_delay: delay, ..*old(self) }),
    {
        self.network_delay = delay;
    }

    /// Marks or unmarks the block as part of the k-cluster.
    pub fn set_k_cluster(&mut self, in_cluster: bool)
        ensures
            *final(self) == (Block { in_k_cluster: in_cluster, ..*old(self) }),
    {
        self.in_k_cluster = in_cluster;
    }
}

impl Node {
    /// Creates a fresh node: active, no delay measured, nothing validated.
    pub fn new(id: String, address: String, last_seen: u64) -> (r: Self)
        ensures
            r@.id == id@,
            r@.address == address@,
            r@.last_seen == last_seen,
            r@.status == NodeStatus::Active,
            r@.avg_delay == 0,
            r@.blocks_validated == 0,
    {
        Node {
            id,
            address,
            last_seen,
            status: NodeStatus::Active,
            avg_delay: 0,
            blocks_validated: 0,
        }
    }

    /// Sets the node's status.
    pub fn update_status(&mut self, status: NodeStatus)
        ensures
            *final(self) == (Node { status, ..*old(self) }),
    {
        self.status = status;
    }

    /// Records a new average-delay measurement, in milliseconds.
    pub fn update_avg_delay(&mut self, delay: u64)
        ensures
            *final(self) == (Node { avg_delay: delay, ..*old(self) }),
    {
        self.avg_delay = delay;
    }

    /// Counts one more validated block.
    pub fn increment_blocks_validated(&mut self)
        requires
            old(self).blocks_validated < u64::MAX,
        ensures
            *final(self) == (Node {
                blocks_validated: (old(self).blocks_validated + 1) as u64,
                ..*old(self)
            }),
    {
        self.blocks_validated = self.blocks_validated + 1;
    }

    /// Refreshes the last-seen timestamp, in milliseconds.
    pub fn update_last_seen(&mut self, now: u64)
        ensures
            *final(self) == (Node { last_seen: now, ..*old(self) }),
    {
        self.last_seen = now;
    }
}

} // verus!
