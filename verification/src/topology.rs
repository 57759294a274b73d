//! The topology store: a mutable, undirected graph of node identifiers,
//! each node carrying an optional label, an optional role tag, and a
//! cumulative send/drop counter used to estimate its packet drop rate.

use vstd::prelude::*;
use std::collections::HashMap;

verus! {

broadcast use vstd::std_specs::hash::group_hash_axioms;

/// A node identifier: a small unsigned integer naming one participant.
pub type NodeId = u8;

/// Cumulative delivery counters for one node: how many loss-eligible
/// packets were sent through it, and how many were dropped.
#[derive(Clone, Copy, Debug, PartialEq, Eq, Structural)]
pub struct NodePacketHistory {
    pub packets_sent: u64,
    pub packets_dropped: u64,
}

impl Default for NodePacketHistory {
    fn default() -> (r: Self)
        ensures
            r.packets_sent == 0,
            r.packets_dropped == 0,
    {
        NodePacketHistory { packets_sent: 0, packets_dropped: 0 }
    }
}

/// The estimated drop rate of a node, as an integer percentage:
/// `packets_dropped * 100 / packets_sent`, or 0 while nothing was sent.
pub open spec fn pdr_of(h: NodePacketHistory) -> int {
    if h.packets_sent > 0 {
        h.packets_dropped * 100 / (h.packets_sent as int)
    } else {
        0
    }
}

/// How many times `x` occurs in `s`.
pub open spec fn count_id(s: Seq<NodeId>, x: NodeId) -> nat
    decreases s.len(),
{
    if s.len() == 0 {
        0
    } else {
        count_id(s.drop_last(), x) + (if s.last() == x { 1nat } else { 0nat })
    }
}

/// The adjacency map after linking `a` to `b` in one direction:
/// `b` joins `a`'s neighbor list unless it is already there.
pub open spec fn adj_link(m: Map<NodeId, Seq<NodeId>>, a: NodeId, b: NodeId) -> Map<
    NodeId,
    Seq<NodeId>,
> {
    let sa = if m.contains_key(a) {
        m[a]
    } else {
        Seq::<NodeId>::empty()
    };
    m.insert(a, if sa.contains(b) { sa } else { sa.push(b) })
}

/// The adjacency map after unlinking `b` from `a`'s neighbor list.
pub open spec fn adj_unlink(m: Map<NodeId, Seq<NodeId>>, a: NodeId, b: NodeId) -> Map<
    NodeId,
    Seq<NodeId>,
> {
    if m.contains_key(a) {
        m.insert(a, m[a].remove_value(b))
    } else {
        m
    }
}

/// The adjacency map after a node is removed: its own entry disappears,
/// and it is stripped from every other node's neighbor list.
pub open spec fn adj_drop_node(m: Map<NodeId, Seq<NodeId>>, id: NodeId) -> Map<
    NodeId,
    Seq<NodeId>,
> {
    Map::new(
        |k: NodeId| m.contains_key(k) && k != id,
        |k: NodeId| m[k].remove_value(id),
    )
}

/// A computed route plus a cursor into it. The cursor starts at 1: the
/// first element of the route is its own source, already consumed.
#[derive(Debug, Clone)]
pub struct RoutingHeader {
    pub hop_index: usize,
    pub hops: Vec<NodeId>,
}

/// A simple graph representation of the network topology.
#[derive(Debug, Clone)]
pub struct Topology {
    nodes: Vec<NodeId>,
    edges: HashMap<NodeId, Vec<NodeId>>,
    labels: HashMap<NodeId, String>,
    node_types: HashMap<NodeId, String>,
    node_histories: HashMap<NodeId, NodePacketHistory>,
}

impl Topology {
    /// The nodes known to the store, in insertion order.
    pub closed spec fn nodes_view(&self) -> Seq<NodeId> {
        self.nodes@
    }

    /// The adjacency map: for each node with an entry, its neighbor list.
    pub closed spec fn adj(&self) -> Map<NodeId, Seq<NodeId>> {
        self.edges@.map_values(|v: Vec<NodeId>| v@)
    }

    /// The neighbor list of a node; a node with no entry has none.
    pub open spec fn neighbors_of(&self, id: NodeId) -> Seq<NodeId> {
        if self.adj().contains_key(id) {
            self.adj()[id]
        } else {
            Seq::<NodeId>::empty()
        }
    }

    /// Whether `b` stands in `a`'s neighbor list.
    pub open spec fn has_edge(&self, a: NodeId, b: NodeId) -> bool {
        self.neighbors_of(a).contains(b)
    }

    /// The labels attached to nodes.
    pub closed spec fn labels_view(&self) -> Map<NodeId, Seq<char>> {
        self.labels@.map_values(|s: String| s@)
    }

    /// The role tags attached to nodes.
    pub closed spec fn types_view(&self) -> Map<NodeId, Seq<char>> {
        self.node_types@.map_values(|s: String| s@)
    }

    /// The recorded per-node counters.
    pub closed spec fn histories_view(&self) -> Map<NodeId, NodePacketHistory> {
        self.node_histories@
    }

    /// The counters of a node; a node with no entry has zero counts.
    pub open spec fn history_of(&self, id: NodeId) -> NodePacketHistory {
        if self.histories_view().contains_key(id) {
            self.histories_view()[id]
        } else {
            NodePacketHistory { packets_sent: 0, packets_dropped: 0 }
        }
    }

    /// Well-formedness: neighbor lists hold no duplicates, and every
    /// link is symmetric: `b` among `a`'s neighbors puts `a` among `b`'s.
    pub open spec fn wf(&self) -> bool {
        &&& (forall|a: NodeId| #[trigger]
            self.adj().contains_key(a) ==> self.adj()[a].no_duplicates())
        &&& (forall|a: NodeId, b: NodeId| #[trigger]
            self.has_edge(a, b) ==> self.has_edge(b, a))
    }

    /// Create a new empty topology.
    pub fn new() -> (t: Topology)
        ensures
            t.wf(),
            t.nodes_view() == Seq::<NodeId>::empty(),
            t.adj() == Map::<NodeId, Seq<NodeId>>::empty(),
            t.labels_view() == Map::<NodeId, Seq<char>>::empty(),
            t.types_view() == Map::<NodeId, Seq<char>>::empty(),
            t.histories_view() == Map::<NodeId, NodePacketHistory>::empty(),
    {
        let t = Topology {
            nodes: Vec::new(),
            edges: HashMap::new(),
            labels: HashMap::new(),
            node_types: HashMap::new(),
            node_histories: HashMap::new(),
        };
        proof {
            assert(t.adj() =~= Map::<NodeId, Seq<NodeId>>::empty());
            assert(t.labels_view() =~= Map::<NodeId, Seq<char>>::empty());
            assert(t.types_view() =~= Map::<NodeId, Seq<char>>::empty());
        }
        t
    }

    /// Add a node: it joins the node list unconditionally, and gets an
    /// empty neighbor list unless it already has one.
    pub fn add_node(&mut self, node: NodeId)
        requires
            old(self).wf(),
        ensures
            final(self).wf(),
            final(self).nodes_view() == old(self).nodes_view().push(node),
            final(self).adj() == (if old(self).adj().contains_key(node) {
                old(self).adj()
            } else {
                old(self).adj().insert(node, Seq::<NodeId>::empty())
            }),
            final(self).labels_view() == old(self).labels_view(),
            final(self).types_view() == old(self).types_view(),
            final(self).histories_view() == old(self).histories_view(),
    {
        self.nodes.push(node);
        if !self.edges.contains_key(&node) {
            let empty: Vec<NodeId> = Vec::new();
            self.edges.insert(node, empty);
            proof {
                assert(self.adj() =~= old(self).adj().insert(node, Seq::<NodeId>::empty()));
                assert(Seq::<NodeId>::empty().no_duplicates());
                assert forall|x: NodeId, y: NodeId| #[trigger]
                    self.has_edge(x, y) implies self.has_edge(y, x) by {
                    if x != node {
                        assert(old(self).has_edge(x, y));
                        assert(old(self).has_edge(y, x));
                        // y cannot be the new node: a link into it would
                        // have required it to hold a mirror entry already
                        assert(y != node);
                    }
                }
            }
        } else {
            proof {
                assert(self.adj() =~= old(self).adj());
                assert forall|x: NodeId, y: NodeId| #[trigger]
                    self.has_edge(x, y) implies self.has_edge(y, x) by {
                    assert(old(self).has_edge(x, y));
                    assert(old(self).has_edge(y, x));
                }
            }
        }
    }

    /// Add an undirected edge: each endpoint joins the other's neighbor
    /// list (no duplicate entries are created).
    pub fn add_edge(&mut self, from: NodeId, to: NodeId)
        requires
            old(self).wf(),
        ensures
            final(self).wf(),
            final(self).adj() == adj_link(adj_link(old(self).adj(), from, to), to, from),
            final(self).has_edge(from, to),
            final(self).has_edge(to, from),
            forall|x: NodeId, y: NodeId| old(self).has_edge(x, y) ==> final(self).has_edge(x, y),
            forall|x: NodeId, y: NodeId|
                final(self).has_edge(x, y) ==> old(self).has_edge(x, y) || (x == from && y == to)
                    || (x == to && y == from),
            final(self).nodes_view() == old(self).nodes_view(),
            final(self).labels_view() == old(self).labels_view(),
            final(self).types_view() == old(self).types_view(),
            final(self).histories_view() == old(self).histories_view(),
    {
        let ghost mid = adj_link(old(self).adj(), from, to);
        let mut adj_from: Vec<NodeId> = match self.edges.remove(&from) {
            Some(v) => v,
            None => Vec::new(),
        };
        if !vec_contains_node(&adj_from, to) {
            adj_from.push(to);
        }
        self.edges.insert(from, adj_from);
        proof {
            assert(self.adj() =~= mid);
        }
        let mut adj_to: Vec<NodeId> = match self.edges.remove(&to) {
            Some(v) => v,
            None => Vec::new(),
        };
        if !vec_contains_node(&adj_to, from) {
            adj_to.push(from);
        }
        self.edges.insert(to, adj_to);
        proof {
            assert(self.adj() =~= adj_link(mid, to, from));
            lemma_adj_link_wf(old(self).adj(), mid, from, to);
            let fin = adj_link(mid, to, from);
            lemma_adj_link_wf(mid, fin, to, from);
            assert(self.has_edge(to, from));
            assert(self.has_edge(from, to)) by {
                if from == to {
                } else {
                    assert(fin[from] == mid[from]);
                }
            }
            assert forall|x: NodeId, y: NodeId| old(self).has_edge(x, y) implies self.has_edge(
                x,
                y,
            ) by {
                lemma_adj_link_edges_mono(old(self).adj(), from, to, x, y);
                lemma_adj_link_edges_mono(mid, to, from, x, y);
            }
            assert forall|x: NodeId, y: NodeId| #[trigger] self.has_edge(x, y) implies self.has_edge(
                y,
                x,
            ) by {
                lemma_adj_link_edges(old(self).adj(), from, to, x, y);
                lemma_adj_link_edges(mid, to, from, x, y);
                if !(old(self).has_edge(x, y)) {
                    // the only new links are from-to and to-from, each
                    // of which has its mirror in the final map
                } else {
                    assert(old(self).has_edge(y, x));
                    lemma_adj_link_edges_mono(old(self).adj(), from, to, y, x);
                    lemma_adj_link_edges_mono(mid, to, from, y, x);
                }
            }
        }
    }

    /// The neighbors of a node, or an empty list if it has no entry.
    pub fn neighbors(&self, node_id: NodeId) -> (r: Vec<NodeId>)
        ensures
            r@ == self.neighbors_of(node_id),
    {
        match self.edges.get(&node_id) {
            Some(v) => clone_nodes(v),
            None => Vec::new(),
        }
    }

    /// Forget every node, edge and recorded counter; labels and role
    /// tags are kept (they are unused until their identifier reappears).
    pub fn clear(&mut self)
        ensures
            final(self).wf(),
            final(self).nodes_view() == Seq::<NodeId>::empty(),
            final(self).adj() == Map::<NodeId, Seq<NodeId>>::empty(),
            final(self).histories_view() == Map::<NodeId, NodePacketHistory>::empty(),
            final(self).labels_view() == old(self).labels_view(),
            final(self).types_view() == old(self).types_view(),
    {
        self.nodes.clear();
        self.edges.clear();
        self.node_histories.clear();
        proof {
            assert(self.adj() =~= Map::<NodeId, Seq<NodeId>>::empty());
        }
    }

    /// The node list of the topology.
    pub fn nodes(&self) -> (r: &Vec<NodeId>)
        ensures
            r@ == self.nodes_view(),
    {
        &self.nodes
    }

    /// The raw adjacency table of the topology.
    pub fn edges(&self) -> (r: &HashMap<NodeId, Vec<NodeId>>)
        ensures
            r@.map_values(|v: Vec<NodeId>| v@) == self.adj(),
    {
        &self.edges
    }
}

/// A node list without every occurrence of one identifier.
pub open spec fn seq_without(s: Seq<NodeId>, x: NodeId) -> Seq<NodeId> {
    s.filter(|y: NodeId| y != x)
}

/// A history bumped by `k` drops (when `dropped`) or `k` sends.
pub open spec fn bump_history(h: NodePacketHistory, dropped: bool, k: nat) -> NodePacketHistory {
    if dropped {
        NodePacketHistory { packets_sent: h.packets_sent, packets_dropped: (h.packets_dropped + k) as u64 }
    } else {
        NodePacketHistory { packets_sent: (h.packets_sent + k) as u64, packets_dropped: h.packets_dropped }
    }
}

impl Topology {
    /// Remove a node: it leaves the node list, its adjacency entry is
    /// dropped, and it is stripped from every neighbor list.
    pub fn remove_node(&mut self, node_id: NodeId)
        requires
            old(self).wf(),
        ensures
            final(self).wf(),
            final(self).nodes_view() == seq_without(old(self).nodes_view(), node_id),
            final(self).adj() == adj_drop_node(old(self).adj(), node_id),
            final(self).labels_view() == old(self).labels_view(),
            final(self).types_view() == old(self).types_view(),
            final(self).histories_view() == old(self).histories_view(),
    {
        let n = self.nodes.len();
        let mut kept: Vec<NodeId> = Vec::new();
        let mut i: usize = 0;
        while i < n
            invariant
                i <= n,
                n == self.nodes@.len(),
                kept@ == seq_without(self.nodes@.take(i as int), node_id),
            decreases n - i,
        {
            let x = self.nodes[i];
            proof {
                assert(self.nodes@.take(i as int + 1).drop_last() =~= self.nodes@.take(i as int));
                assert(self.nodes@.take(i as int + 1).last() == self.nodes@[i as int]);
                reveal(Seq::filter);
            }
            if x != node_id {
                kept.push(x);
            }
            i += 1;
        }
        proof {
            assert(self.nodes@.take(n as int) =~= self.nodes@);
        }
        self.nodes = kept;
        let own: Vec<NodeId> = match self.edges.remove(&node_id) {
            Some(v) => v,
            None => Vec::new(),
        };
        let ghost orig = old(self).adj();
        let ghost own0 = if orig.contains_key(node_id) {
            orig[node_id]
        } else {
            Seq::<NodeId>::empty()
        };
        let mut j: usize = 0;
        while j < own.len()
            invariant
                j <= own@.len(),
                own@ == own0,
                own@.no_duplicates(),
                old(self).wf(),
                orig == old(self).adj(),
                own0 == (if orig.contains_key(node_id) { orig[node_id] } else { Seq::<NodeId>::empty() }),
                self.adj().dom() == orig.dom().remove(node_id),
                forall|k: NodeId| #[trigger]
                    self.adj().contains_key(k) ==> self.adj()[k] == (
                        if own@.take(j as int).contains(k) { orig[k].remove_value(node_id) } else { orig[k] }),
                self.nodes@ == seq_without(old(self).nodes_view(), node_id),
                self.labels_view() == old(self).labels_view(),
                self.types_view() == old(self).types_view(),
                self.histories_view() == old(self).histories_view(),
            decreases own@.len() - j,
        {
            let nb = own[j];
            match self.edges.remove(&nb) {
                Some(mut vnb) => {
                    remove_first(&mut vnb, node_id);
                    self.edges.insert(nb, vnb);
                },
                None => {},
            }
            proof {
                assert(self.adj().dom() =~= orig.dom().remove(node_id));
                assert forall|k: NodeId| #[trigger]
                    self.adj().contains_key(k) implies self.adj()[k] == (
                        if own@.take(j as int + 1).contains(k) { orig[k].remove_value(node_id) } else { orig[k] }) by {
                    if own@.take(j as int + 1).contains(k) && !own@.take(j as int).contains(k) {
                        // only the neighbor handled this round is new
                        lemma_take_step_contains(own@, j as int, k);
                        assert(k == nb);
                    } else if own@.take(j as int).contains(k) {
                        lemma_take_step_contains(own@, j as int, k);
                        if k == nb {
                            // a duplicate round would strip twice; ruled out
                            assert(own@[j as int] == nb);
                            let idx = choose|idx: int| 0 <= idx < j && own@[idx] == k;
                            assert(false);
                        }
                    } else {
                        lemma_take_step_contains(own@, j as int, k);
                        assert(k != nb);
                    }
                }
            }
            j += 1;
        }
        proof {
            assert(own@.take(own@.len() as int) =~= own@);
            assert forall|k: NodeId| #[trigger]
                self.adj().contains_key(k) implies self.adj()[k] == orig[k].remove_value(node_id) by {
                if !own@.contains(k) {
                    // a list not among the node's neighbors never held it
                    if orig[k].contains(node_id) {
                        assert(old(self).has_edge(k, node_id));
                        assert(old(self).has_edge(node_id, k));
                        assert(false);
                    }
                    orig[k].index_of_first_ensures(node_id);
                }
            }
            assert(self.adj() =~= adj_drop_node(orig, node_id));
            assert forall|k: NodeId| #[trigger]
                self.adj().contains_key(k) implies self.adj()[k].no_duplicates() by {
                lemma_remove_value_props(orig[k], node_id);
            }
            assert forall|x: NodeId, y: NodeId| #[trigger]
                self.has_edge(x, y) implies self.has_edge(y, x) by {
                lemma_remove_value_props(orig[x], node_id);
                assert(old(self).has_edge(x, y));
                assert(old(self).has_edge(y, x));
                lemma_remove_value_props(orig[y], node_id);
            }
        }
    }

    /// Remove the symmetric link between exactly `node1` and `node2`,
    /// leaving both nodes and all other links intact.
    pub fn remove_edges(&mut self, node1: NodeId, node2: NodeId)
        requires
            old(self).wf(),
        ensures
            final(self).wf(),
            final(self).adj() == adj_unlink(adj_unlink(old(self).adj(), node1, node2), node2, node1),
            !final(self).has_edge(node1, node2),
            !final(self).has_edge(node2, node1),
            forall|x: NodeId, y: NodeId| #[trigger]
                final(self).has_edge(x, y) <==> (old(self).has_edge(x, y) && !(x == node1 && y
                    == node2) && !(x == node2 && y == node1)),
            final(self).nodes_view() == old(self).nodes_view(),
            final(self).labels_view() == old(self).labels_view(),
            final(self).types_view() == old(self).types_view(),
            final(self).histories_view() == old(self).histories_view(),
    {
        let ghost orig = old(self).adj();
        let ghost mid = adj_unlink(orig, node1, node2);
        match self.edges.remove(&node1) {
            Some(mut v1) => {
                remove_first(&mut v1, node2);
                self.edges.insert(node1, v1);
                proof {
                    assert(self.adj() =~= mid);
                }
            },
            None => {
                proof {
                    assert(self.adj() =~= mid);
                }
            },
        }
        match self.edges.remove(&node2) {
            Some(mut v2) => {
                remove_first(&mut v2, node1);
                self.edges.insert(node2, v2);
                proof {
                    assert(self.adj() =~= adj_unlink(mid, node2, node1));
                }
            },
            None => {
                proof {
                    assert(self.adj() =~= adj_unlink(mid, node2, node1));
                }
            },
        }
        proof {
            assert forall|x: NodeId, y: NodeId| #[trigger]
                self.has_edge(x, y) <==> (old(self).has_edge(x, y) && !(x == node1 && y == node2)
                    && !(x == node2 && y == node1)) by {
                if orig.contains_key(x) {
                    lemma_remove_value_props(orig[x], node2);
                    lemma_remove_value_props(orig[x].remove_value(node2), node1);
                    lemma_remove_value_props(orig[x], node1);
                    orig[x].index_of_first_ensures(node2);
                    orig[x].index_of_first_ensures(node1);
                }
            }
            assert forall|k: NodeId| #[trigger]
                self.adj().contains_key(k) implies self.adj()[k].no_duplicates() by {
                if orig.contains_key(k) {
                    lemma_remove_value_props(orig[k], node2);
                    lemma_remove_value_props(orig[k].remove_value(node2), node1);
                    lemma_remove_value_props(orig[k], node1);
                }
            }
            assert forall|x: NodeId, y: NodeId| #[trigger]
                self.has_edge(x, y) implies self.has_edge(y, x) by {
                assert(old(self).has_edge(x, y));
                assert(old(self).has_edge(y, x));
            }
        }
    }

    /// For every identifier in the list, bump its dropped counter (when
    /// `dropped`) or its sent counter. Meant only for loss-eligible
    /// traffic units; that restriction is the caller's contract.
    pub fn update_node_history(&mut self, node_ids: &Vec<NodeId>, dropped: bool)
        requires
            old(self).wf(),
            forall|id: NodeId|
                (if dropped {
                    old(self).history_of(id).packets_dropped
                } else {
                    old(self).history_of(id).packets_sent
                }) + count_id(node_ids@, id) <= u64::MAX,
        ensures
            final(self).wf(),
            forall|id: NodeId| #[trigger]
                final(self).history_of(id) == bump_history(
                    old(self).history_of(id),
                    dropped,
                    count_id(node_ids@, id),
                ),
            final(self).nodes_view() == old(self).nodes_view(),
            final(self).adj() == old(self).adj(),
            final(self).labels_view() == old(self).labels_view(),
            final(self).types_view() == old(self).types_view(),
    {
        let mut i: usize = 0;
        while i < node_ids.len()
            invariant
                i <= node_ids@.len(),
                old(self).wf(),
                forall|id: NodeId|
                    (if dropped {
                        old(self).history_of(id).packets_dropped
                    } else {
                        old(self).history_of(id).packets_sent
                    }) + count_id(node_ids@, id) <= u64::MAX,
                forall|id: NodeId| #[trigger]
                    self.history_of(id) == bump_history(
                        old(self).history_of(id),
                        dropped,
                        count_id(node_ids@.take(i as int), id),
                    ),
                self.nodes@ == old(self).nodes_view(),
                self.adj() == old(self).adj(),
                self.labels_view() == old(self).labels_view(),
                self.types_view() == old(self).types_view(),
            decreases node_ids@.len() - i,
        {
            let id = node_ids[i];
            let ghost prev = *self;
            proof {
                lemma_count_id_take_le(node_ids@, i as int + 1, id);
                assert forall|x: NodeId|
                    count_id(node_ids@.take(i as int + 1), x) == count_id(node_ids@.take(i as int), x)
                        + (if node_ids@[i as int] == x { 1nat } else { 0nat }) by {
                    assert(node_ids@.take(i as int + 1).drop_last() =~= node_ids@.take(i as int));
                }
            }
            let h = match self.node_histories.get(&id) {
                Some(h) => *h,
                None => NodePacketHistory { packets_sent: 0, packets_dropped: 0 },
            };
            proof {
                assert(h == self.history_of(id));
                assert(h == bump_history(
                    old(self).history_of(id),
                    dropped,
                    count_id(node_ids@.take(i as int), id),
                ));
                assert(count_id(node_ids@.take(i as int), id) + 1 <= count_id(node_ids@, id));
                if dropped {
                    assert(old(self).history_of(id).packets_dropped + count_id(node_ids@, id)
                        <= u64::MAX);
                    assert(h.packets_dropped < u64::MAX);
                } else {
                    assert(old(self).history_of(id).packets_sent + count_id(node_ids@, id)
                        <= u64::MAX);
                    assert(h.packets_sent < u64::MAX);
                }
            }
            let nh = if dropped {
                NodePacketHistory { packets_sent: h.packets_sent, packets_dropped: h.packets_dropped + 1 }
            } else {
                NodePacketHistory { packets_sent: h.packets_sent + 1, packets_dropped: h.packets_dropped }
            };
            self.node_histories.insert(id, nh);
            proof {
                assert forall|id2: NodeId| #[trigger]
                    self.history_of(id2) == bump_history(
                        old(self).history_of(id2),
                        dropped,
                        count_id(node_ids@.take(i as int + 1), id2),
                    ) by {
                    if id2 != id {
                        assert(self.history_of(id2) == prev.history_of(id2));
                        assert(count_id(node_ids@.take(i as int + 1), id2) == count_id(
                            node_ids@.take(i as int),
                            id2,
                        ));
                    }
                }
            }
            i += 1;
        }
        proof {
            assert(node_ids@.take(node_ids@.len() as int) =~= node_ids@);
            lemma_wf_same_adj(*old(self), *self);
        }
    }

    /// The estimated drop rate of a node, from 0 upward, in integer
    /// percent of the packets sent through it; 0 while nothing was sent.
    pub fn pdr_for_node(&mut self, node_id: NodeId) -> (r: u64)
        requires
            old(self).history_of(node_id).packets_dropped <= u64::MAX / 100,
        ensures
            *final(self) == *old(self),
            r == pdr_of(old(self).history_of(node_id)),
    {
        let h = match self.node_histories.get(&node_id) {
            Some(h) => *h,
            None => NodePacketHistory { packets_sent: 0, packets_dropped: 0 },
        };
        if h.packets_sent > 0 {
            (h.packets_dropped * 100) / h.packets_sent
        } else {
            0
        }
    }

    /// The label of a node, if one was set.
    pub fn get_label(&self, node_id: NodeId) -> (r: Option<&String>)
        ensures
            match r {
                Some(s) => self.labels_view().contains_key(node_id) && s@ == self.labels_view()[node_id],
                None => !self.labels_view().contains_key(node_id),
            },
    {
        self.labels.get(&node_id)
    }

    /// Set the label of a node, replacing any earlier one.
    pub fn set_label(&mut self, node_id: NodeId, label: String)
        ensures
            final(self).labels_view() == old(self).labels_view().insert(node_id, label@),
            final(self).nodes_view() == old(self).nodes_view(),
            final(self).adj() == old(self).adj(),
            final(self).types_view() == old(self).types_view(),
            final(self).histories_view() == old(self).histories_view(),
            old(self).wf() ==> final(self).wf(),
    {
        self.labels.insert(node_id, label);
        proof {
            assert(self.labels_view() =~= old(self).labels_view().insert(node_id, self.labels@[node_id]@));
            if old(self).wf() {
                lemma_wf_same_adj(*old(self), *self);
            }
        }
    }

    /// The role tag of a node, if one was set.
    pub fn get_node_type(&self, node_id: NodeId) -> (r: Option<&String>)
        ensures
            match r {
                Some(s) => self.types_view().contains_key(node_id) && s@ == self.types_view()[node_id],
                None => !self.types_view().contains_key(node_id),
            },
    {
        self.node_types.get(&node_id)
    }

    /// Set the role tag of a node, replacing any earlier one.
    pub fn set_node_type(&mut self, node_id: NodeId, node_type: String)
        ensures
            final(self).types_view() == old(self).types_view().insert(node_id, node_type@),
            final(self).nodes_view() == old(self).nodes_view(),
            final(self).adj() == old(self).adj(),
            final(self).labels_view() == old(self).labels_view(),
            final(self).histories_view() == old(self).histories_view(),
            old(self).wf() ==> final(self).wf(),
    {
        self.node_types.insert(node_id, node_type);
        proof {
            assert(self.types_view() =~= old(self).types_view().insert(node_id, self.node_types@[node_id]@));
            if old(self).wf() {
                lemma_wf_same_adj(*old(self), *self);
            }
        }
    }

    /// A route from `client_id` to `server_id` found by the weighted
    /// search, wrapped with a cursor that already stands on the hop
    /// after the source.
    pub fn get_routing_header(&mut self, client_id: NodeId, server_id: NodeId) -> (r:
        RoutingHeader)
        requires
            forall|id: NodeId| old(self).history_of(id).packets_dropped <= u64::MAX / 100,
        ensures
            *final(self) == *old(self),
            r.hop_index == 1,
            r.hops@.len() == 0 <==> !crate::routing::eligible_reachable(
                old(self),
                client_id,
                server_id,
            ),
            r.hops@.len() > 0 ==> crate::routing::eligible_path(
                old(self),
                r.hops@,
                client_id,
                server_id,
            ),
    {
        let hops = crate::routing::compute_route_dijkstra(self, client_id, server_id);
        RoutingHeader { hop_index: 1, hops }
    }

    /// The whole role-tag table.
    pub fn get_node_types(&self) -> (r: &HashMap<NodeId, String>)
        ensures
            r@.map_values(|s: String| s@) == self.types_view(),
    {
        &self.node_types
    }
}

impl Default for Topology {
    fn default() -> (t: Self)
        ensures
            t.wf(),
            t.nodes_view() == Seq::<NodeId>::empty(),
            t.adj() == Map::<NodeId, Seq<NodeId>>::empty(),
            t.labels_view() == Map::<NodeId, Seq<char>>::empty(),
            t.types_view() == Map::<NodeId, Seq<char>>::empty(),
            t.histories_view() == Map::<NodeId, NodePacketHistory>::empty(),
    {
        Topology::new()
    }
}

/// Two stores with the same adjacency map are equally well-formed.
proof fn lemma_wf_same_adj(t1: Topology, t2: Topology)
    requires
        t1.wf(),
        t2.adj() == t1.adj(),
    ensures
        t2.wf(),
{
    assert forall|x: NodeId, y: NodeId| #[trigger] t2.has_edge(x, y) implies t2.has_edge(y, x) by {
        assert(t1.has_edge(x, y));
        assert(t1.has_edge(y, x));
    }
}

/// Removing a value from a duplicate-free list keeps it duplicate-free,
/// drops that value, and keeps every other value.
proof fn lemma_remove_value_props(s: Seq<NodeId>, x: NodeId)
    requires
        s.no_duplicates(),
    ensures
        s.remove_value(x).no_duplicates(),
        !s.remove_value(x).contains(x),
        forall|y: NodeId| y != x ==> (#[trigger] s.remove_value(x).contains(y) <==> s.contains(y)),
{
    s.index_of_first_ensures(x);
    match s.index_of_first(x) {
        Some(i) => {
            let r = s.remove(i);
            s.remove_ensures(i);
            assert forall|p: int, q: int| 0 <= p < q < r.len() implies r[p] != r[q] by {
                if q < i {
                } else if p < i {
                    assert(r[q] == s[q + 1]);
                } else {
                    assert(r[p] == s[p + 1]);
                    assert(r[q] == s[q + 1]);
                }
            }
            assert forall|k: int| 0 <= k < r.len() implies r[k] != x by {
                if k < i {
                } else {
                    assert(r[k] == s[k + 1]);
                }
            }
            assert(!r.contains(x));
            assert forall|y: NodeId| y != x && s.contains(y) implies r.contains(y) by {
                let k = choose|k: int| 0 <= k < s.len() && s[k] == y;
                if k < i {
                    assert(r[k] == y);
                } else {
                    assert(k > i);
                    assert(r[k - 1] == s[k]);
                }
            }
            assert forall|y: NodeId| y != x && r.contains(y) implies s.contains(y) by {
                let k = choose|k: int| 0 <= k < r.len() && r[k] == y;
                if k < i {
                    assert(s[k] == y);
                } else {
                    assert(s[k + 1] == y);
                }
            }
        },
        None => {},
    }
}

/// What the first `j + 1` entries of a list hold, against the first `j`.
proof fn lemma_take_step_contains(s: Seq<NodeId>, j: int, k: NodeId)
    requires
        0 <= j < s.len(),
    ensures
        s.take(j + 1).contains(k) <==> (s.take(j).contains(k) || s[j] == k),
{
    if s.take(j).contains(k) {
        let idx = choose|idx: int| 0 <= idx < j && s.take(j)[idx] == k;
        assert(s.take(j + 1)[idx] == k);
    }
    if s[j] == k {
        assert(s.take(j + 1)[j] == k);
    }
    if s.take(j + 1).contains(k) {
        let idx = choose|idx: int| 0 <= idx <= j && #[trigger] s.take(j + 1)[idx] == k;
        if idx < j {
            assert(s.take(j)[idx] == k);
        }
    }
}

/// Occurrence counts over a prefix never exceed those over the whole.
proof fn lemma_count_id_take_le(s: Seq<NodeId>, j: int, x: NodeId)
    requires
        0 <= j <= s.len(),
    ensures
        count_id(s.take(j), x) <= count_id(s, x),
    decreases s.len() - j,
{
    if j == s.len() {
        assert(s.take(j) =~= s);
    } else {
        lemma_count_id_take_le(s, j + 1, x);
        assert(s.take(j + 1).drop_last() =~= s.take(j));
    }
}

/// Remove the first occurrence of `x` from `v`, if there is one.
fn remove_first(v: &mut Vec<NodeId>, x: NodeId)
    ensures
        final(v)@ == old(v)@.remove_value(x),
{
    let mut i: usize = 0;
    while i < v.len()
        invariant
            i <= v@.len(),
            v@ == old(v)@,
            forall|j: int| 0 <= j < i ==> v@[j] != x,
        decreases v@.len() - i,
    {
        if v[i] == x {
            proof {
                old(v)@.index_of_first_ensures(x);
                assert(old(v)@[i as int] == x);
                match old(v)@.index_of_first(x) {
                    Some(idx) => {
                        if idx < i as int {
                            assert(old(v)@[idx] == x);
                            assert(false);
                        }
                        if idx > i as int {
                            assert(false);
                        }
                    },
                    None => {
                        assert(old(v)@.contains(x));
                        assert(false);
                    },
                }
            }
            v.remove(i);
            return;
        }
        i += 1;
    }
    proof {
        old(v)@.index_of_first_ensures(x);
        match old(v)@.index_of_first(x) {
            Some(idx) => {
                assert(old(v)@[idx] == x);
                assert(false);
            },
            None => {},
        }
    }
}

/// Whether `x` occurs in `v`.
fn vec_contains_node(v: &Vec<NodeId>, x: NodeId) -> (r: bool)
    ensures
        r == v@.contains(x),
{
    let mut i: usize = 0;
    while i < v.len()
        invariant
            i <= v@.len(),
            forall|j: int| 0 <= j < i ==> v@[j] != x,
        decreases v@.len() - i,
    {
        if v[i] == x {
            return true;
        }
        i += 1;
    }
    false
}

/// A copy of a node list.
fn clone_nodes(v: &Vec<NodeId>) -> (r: Vec<NodeId>)
    ensures
        r@ == v@,
{
    let mut r: Vec<NodeId> = Vec::new();
    let mut i: usize = 0;
    while i < v.len()
        invariant
            i <= v@.len(),
            r@ == v@.take(i as int),
        decreases v@.len() - i,
    {
        r.push(v[i]);
        proof {
            assert(r@ =~= v@.take(i as int + 1));
        }
        i += 1;
    }
    proof {
        assert(v@.take(v@.len() as int) =~= v@);
    }
    r
}

/// After one directed link is added, the neighbor lists of all other
/// nodes are unchanged and no-duplicate lists stay that way.
proof fn lemma_adj_link_wf(m: Map<NodeId, Seq<NodeId>>, m2: Map<NodeId, Seq<NodeId>>, a: NodeId, b: NodeId)
    requires
        m2 == adj_link(m, a, b),
        forall|k: NodeId| #[trigger] m.contains_key(k) ==> m[k].no_duplicates(),
    ensures
        forall|k: NodeId| #[trigger] m2.contains_key(k) ==> m2[k].no_duplicates(),
        m2[a].contains(b),
{
    let sa = if m.contains_key(a) {
        m[a]
    } else {
        Seq::<NodeId>::empty()
    };
    if !sa.contains(b) {
        assert(sa.push(b).no_duplicates());
        assert(sa.push(b)[sa.len() as int] == b);
    }
}

/// Which links exist after one directed link is added.
proof fn lemma_adj_link_edges(m: Map<NodeId, Seq<NodeId>>, a: NodeId, b: NodeId, x: NodeId, y: NodeId)
    ensures
        ({
            let m2 = adj_link(m, a, b);
            let had = m.contains_key(x) && m[x].contains(y);
            (m2.contains_key(x) && m2[x].contains(y)) <==> (had || (x == a && y == b))
        }),
{
    let sa = if m.contains_key(a) {
        m[a]
    } else {
        Seq::<NodeId>::empty()
    };
    if x == a && !sa.contains(b) {
        assert forall|z: NodeId| sa.push(b).contains(z) implies sa.contains(z) || z == b by {
            let i = choose|i: int| 0 <= i < sa.push(b).len() && sa.push(b)[i] == z;
            if i < sa.len() {
                assert(sa[i] == z);
            }
        }
        if sa.contains(y) {
            let i = choose|i: int| 0 <= i < sa.len() && sa[i] == y;
            assert(sa.push(b)[i] == y);
        }
        assert(sa.push(b)[sa.len() as int] == b);
    }
}

/// Links present before a directed link is added are still present after.
proof fn lemma_adj_link_edges_mono(m: Map<NodeId, Seq<NodeId>>, a: NodeId, b: NodeId, x: NodeId, y: NodeId)
    requires
        m.contains_key(x) && m[x].contains(y),
    ensures
        ({
            let m2 = adj_link(m, a, b);
            m2.contains_key(x) && m2[x].contains(y)
        }),
{
    lemma_adj_link_edges(m, a, b, x, y);
}

} // verus!
