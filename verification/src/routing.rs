//! Path search over the topology store: an unweighted breadth-first
//! search that returns a fewest-hop route, and a reliability-weighted
//! search that prices each step by the drop rate of the node it enters.

use vstd::prelude::*;
use crate::topology::{NodeId, Topology};

verus! {

/// `p` is a walk through `t` from `s` to `d`: it starts at `s`, ends at
/// `d`, and every step follows an edge.
pub open spec fn is_path(t: &Topology, p: Seq<NodeId>, s: NodeId, d: NodeId) -> bool {
    &&& p.len() >= 1
    &&& p[0] == s
    &&& p[p.len() - 1] == d
    &&& forall|i: int| 0 <= i < p.len() - 1 ==> #[trigger] t.has_edge(p[i], p[i + 1])
}

/// Some walk joins `s` to `d` in `t`.
pub open spec fn reachable(t: &Topology, s: NodeId, d: NodeId) -> bool {
    exists|p: Seq<NodeId>| is_path(t, p, s, d)
}

/// One breadth-first queue slot: a discovered node, its hop count from
/// the source, and the queue index it was discovered from.
struct BfsEntry {
    node: NodeId,
    dist: usize,
    parent: usize,
}

/// How many entries of `s` are true.
spec fn count_true(s: Seq<bool>) -> nat
    decreases s.len(),
{
    if s.len() == 0 {
        0
    } else {
        count_true(s.drop_last()) + (if s.last() { 1nat } else { 0nat })
    }
}

proof fn lemma_count_true_le(s: Seq<bool>)
    ensures
        count_true(s) <= s.len(),
    decreases s.len(),
{
    if s.len() > 0 {
        lemma_count_true_le(s.drop_last());
    }
}

proof fn lemma_count_true_update(s: Seq<bool>, i: int)
    requires
        0 <= i < s.len(),
        !s[i],
    ensures
        count_true(s.update(i, true)) == count_true(s) + 1,
    decreases s.len(),
{
    if i == s.len() - 1 {
        assert(s.update(i, true).drop_last() =~= s.drop_last());
    } else {
        assert(s.update(i, true).drop_last() =~= s.drop_last().update(i, true));
        lemma_count_true_update(s.drop_last(), i);
    }
}

proof fn lemma_count_true_all_false(s: Seq<bool>)
    requires
        forall|i: int| 0 <= i < s.len() ==> !s[i],
    ensures
        count_true(s) == 0,
    decreases s.len(),
{
    if s.len() > 0 {
        lemma_count_true_all_false(s.drop_last());
    }
}

/// Everything the breadth-first loop keeps true of its queue, its
/// visited marks, the position map `pos` (queue index of each visited
/// node), and the processed prefix `head`.
spec fn bfs_inv(
    t: &Topology,
    q: Seq<BfsEntry>,
    visited: Seq<bool>,
    pos: Map<NodeId, int>,
    head: int,
    s: NodeId,
    d: NodeId,
) -> bool {
    &&& visited.len() == 256
    &&& q.len() >= 1
    &&& q[0].node == s
    &&& q[0].dist == 0
    &&& 0 <= head <= q.len()
    &&& q.len() == count_true(visited)
    // each later entry points back at an earlier one along an edge,
    // one hop further out
    &&& (forall|i: int| 0 < i < q.len() ==> (#[trigger] q[i].parent) < i)
    &&& (forall|i: int|
        0 < i < q.len() ==> t.has_edge(q[q[i].parent as int].node, #[trigger] q[i].node))
    &&& (forall|i: int|
        0 < i < q.len() ==> (#[trigger] q[i].dist) == q[q[i].parent as int].dist + 1)
    &&& (forall|i: int| 0 <= i < q.len() ==> (#[trigger] q[i].dist) <= i)
    // the queue holds exactly the marked nodes, at the position `pos` names
    &&& (forall|i: int|
        0 <= i < q.len() ==> visited[(#[trigger] q[i].node) as int] && pos.contains_key(q[i].node)
            && pos[q[i].node] == i)
    &&& (forall|n: NodeId| #[trigger]
        visited[n as int] ==> pos.contains_key(n) && 0 <= pos[n] < q.len() && q[pos[n]].node == n)
    // hop counts never decrease along the queue, and the unprocessed
    // part spans at most one level
    &&& (forall|i: int, j: int|
        0 <= i <= j < q.len() ==> (#[trigger] q[i].dist) <= (#[trigger] q[j].dist))
    &&& (forall|j: int|
        head <= j < q.len() && head < q.len() ==> (#[trigger] q[j].dist) <= q[head].dist + 1)
    // every neighbor of a processed node is already discovered, one
    // level further out at most
    &&& (forall|i: int, b: NodeId|
        0 <= i < head && #[trigger] t.has_edge(q[i].node, b) ==> visited[b as int]
            && q[pos[b]].dist <= q[i].dist + 1)
    // the destination was not among the processed nodes
    &&& (forall|i: int| 0 <= i < head ==> (#[trigger] q[i].node) != d)
}

/// Any walk from the source is pinned by the queue: some node of the
/// walk is discovered no deeper than its position along the walk, and
/// it is either still unprocessed or the walk's last node.
proof fn lemma_bfs_reach(
    t: &Topology,
    q: Seq<BfsEntry>,
    visited: Seq<bool>,
    pos: Map<NodeId, int>,
    head: int,
    s: NodeId,
    d: NodeId,
    p: Seq<NodeId>,
    k: int,
)
    requires
        bfs_inv(t, q, visited, pos, head, s, d),
        p.len() >= 1,
        p[0] == s,
        forall|i: int| 0 <= i < p.len() - 1 ==> #[trigger] t.has_edge(p[i], p[i + 1]),
        0 <= k < p.len(),
    ensures
        exists|j: int|
            #![trigger p[j]]
            0 <= j <= k && visited[p[j] as int] && q[pos[p[j]]].dist <= j && (pos[p[j]] >= head || j
                == k),
    decreases k,
{
    if k == 0 {
        assert(visited[p[0] as int] && q[pos[p[0]]].dist <= 0 && (pos[p[0]] >= head || 0 == 0));
    } else {
        lemma_bfs_reach(t, q, visited, pos, head, s, d, p, k - 1);
        let j = choose|j: int|
            #![trigger p[j]]
            0 <= j <= k - 1 && visited[p[j] as int] && q[pos[p[j]]].dist <= j && (pos[p[j]] >= head
                || j == k - 1);
        if pos[p[j]] >= head {
            assert(0 <= j <= k && visited[p[j] as int] && q[pos[p[j]]].dist <= j && (pos[p[j]]
                >= head || j == k));
        } else {
            // that node was processed, so the walk's next node is discovered
            assert(j == k - 1);
            assert(0 <= k - 1 < p.len() - 1);
            assert(t.has_edge(p[k - 1], p[(k - 1) + 1]));
            let i0 = pos[p[k - 1]];
            assert(q[i0].node == p[k - 1]);
            assert(t.has_edge(q[i0].node, p[k]));
            assert(visited[p[k] as int] && q[pos[p[k]]].dist <= q[i0].dist + 1);
            assert(0 <= k <= k && visited[p[k] as int] && q[pos[p[k]]].dist <= k && (pos[p[k]]
                >= head || k == k));
        }
    }
}

/// Unweighted shortest-path search: breadth-first traversal from
/// `source_id` over the adjacency lists, with parent pointers. The
/// result is a fewest-hop walk from `source_id` to `destination_id`,
/// or empty exactly when no walk joins them.
#[verifier::rlimit(100)]
pub fn compute_route(topology: &Topology, source_id: NodeId, destination_id: NodeId) -> (r: Vec<
    NodeId,
>)
    ensures
        r@.len() == 0 <==> !reachable(topology, source_id, destination_id),
        r@.len() > 0 ==> is_path(topology, r@, source_id, destination_id),
        forall|p: Seq<NodeId>|
            is_path(topology, p, source_id, destination_id) ==> r@.len() <= p.len(),
{
    let mut visited: Vec<bool> = vec![false; 256];
    let mut queue: Vec<BfsEntry> = Vec::new();
    queue.push(BfsEntry { node: source_id, dist: 0, parent: 0 });
    visited[source_id as usize] = true;
    let ghost mut pos: Map<NodeId, int> = Map::empty().insert(source_id, 0int);
    proof {
        assert(count_true(visited@) == 1) by {
            lemma_count_true_update(Seq::new(256, |i: int| false), source_id as int);
            assert(visited@ =~= Seq::new(256, |i: int| false).update(source_id as int, true));
            assert(count_true(Seq::new(256, |i: int| false)) == 0) by {
                lemma_count_true_all_false(Seq::new(256, |i: int| false));
            }
        }
        assert(queue@.len() == 1);
        assert(queue@[0].node == source_id);
        assert forall|n: NodeId| #[trigger]
            visited@[n as int] implies pos.contains_key(n) && 0 <= pos[n] < queue@.len()
            && queue@[pos[n]].node == n by {
            if n != source_id {
                assert(!visited@[n as int]);
            }
        }
        assert(bfs_inv(topology, queue@, visited@, pos, 0, source_id, destination_id));
    }
    let mut head: usize = 0;
    while head < queue.len()
        invariant
            bfs_inv(topology, queue@, visited@, pos, head as int, source_id, destination_id),
            head <= queue@.len(),
            queue@.len() <= 256,
        decreases 256 - head,
    {
        let current_node = queue[head].node;
        if current_node == destination_id {
            // walk the parent chain back to the source
            let mut rev: Vec<NodeId> = Vec::new();
            let mut idx: usize = head;
            rev.push(queue[idx].node);
            while idx != 0
                invariant
                    bfs_inv(
                        topology,
                        queue@,
                        visited@,
                        pos,
                        head as int,
                        source_id,
                        destination_id,
                    ),
                    head < queue@.len(),
                    idx < queue@.len(),
                    queue@[head as int].node == destination_id,
                    rev@.len() >= 1,
                    rev@[0] == destination_id,
                    rev@[rev@.len() - 1] == queue@[idx as int].node,
                    rev@.len() == queue@[head as int].dist - queue@[idx as int].dist + 1,
                    forall|m: int|
                        0 <= m < rev@.len() - 1 ==> #[trigger] topology.has_edge(
                            rev@[m + 1],
                            rev@[m],
                        ),
                decreases idx,
            {
                idx = queue[idx].parent;
                rev.push(queue[idx].node);
            }
            let n = rev.len();
            let mut route: Vec<NodeId> = Vec::new();
            let mut k: usize = 0;
            while k < n
                invariant
                    n == rev@.len(),
                    k <= n,
                    route@.len() == k,
                    forall|m: int| 0 <= m < k ==> #[trigger] route@[m] == rev@[n - 1 - m],
                decreases n - k,
            {
                route.push(rev[n - 1 - k]);
                k += 1;
            }
            proof {
                assert(route@[0] == rev@[n - 1]);
                assert(route@[route@.len() - 1] == rev@[0]);
                assert forall|i: int| 0 <= i < route@.len() - 1 implies #[trigger] topology
                    .has_edge(route@[i], route@[i + 1]) by {
                    assert(route@[i] == rev@[n - 1 - i]);
                    assert(route@[i + 1] == rev@[n - 1 - (i + 1)]);
                    assert(topology.has_edge(rev@[(n - 2 - i) + 1], rev@[n - 2 - i]));
                }
                assert(is_path(topology, route@, source_id, destination_id));
                assert(reachable(topology, source_id, destination_id));
                assert(route@.len() == queue@[head as int].dist + 1);
                assert forall|p: Seq<NodeId>|
                    is_path(topology, p, source_id, destination_id) implies route@.len()
                    <= p.len() by {
                    lemma_bfs_reach(
                        topology,
                        queue@,
                        visited@,
                        pos,
                        head as int,
                        source_id,
                        destination_id,
                        p,
                        p.len() - 1,
                    );
                    let j = choose|j: int|
                        #![trigger p[j]]
                        0 <= j <= p.len() - 1 && visited@[p[j] as int] && queue@[pos[p[j]]].dist
                            <= j && (pos[p[j]] >= head as int || j == p.len() - 1);
                    if pos[p[j]] >= head as int {
                        assert(queue@[head as int].dist <= queue@[pos[p[j]]].dist);
                    } else {
                        // a processed position cannot hold the
                        // destination, so the walk's last node is pinned
                        assert(j == p.len() - 1);
                        assert(queue@[pos[p[j]]].node == destination_id);
                        assert(pos[queue@[head as int].node] == head as int);
                        assert(pos[p[j]] == head as int);
                    }
                }
            }
            return route;
        }
        let nbrs = topology.neighbors(current_node);
        let ghost q_dist = queue@[head as int].dist;
        let mut k: usize = 0;
        while k < nbrs.len()
            invariant
                bfs_inv(topology, queue@, visited@, pos, head as int, source_id, destination_id),
                head < queue@.len(),
                queue@.len() <= 256,
                k <= nbrs@.len(),
                queue@[head as int].node == current_node,
                current_node != destination_id,
                queue@[head as int].dist == q_dist,
                nbrs@ == topology.neighbors_of(current_node),
                forall|m: int|
                    0 <= m < k ==> visited@[(#[trigger] nbrs@[m]) as int] && queue@[pos[nbrs@[m]]].dist
                        <= q_dist + 1,
            decreases nbrs@.len() - k,
        {
            let b = nbrs[k];
            if !visited[b as usize] {
                let ghost old_q = queue@;
                let ghost old_vis = visited@;
                let ghost old_pos = pos;
                visited[b as usize] = true;
                let nd = queue[head].dist + 1;
                queue.push(BfsEntry { node: b, dist: nd, parent: head });
                proof {
                    pos = pos.insert(b, old_q.len() as int);
                    lemma_count_true_update(old_vis, b as int);
                    lemma_count_true_le(visited@);
                    let newi = old_q.len() as int;
                    assert(queue@[newi].node == b);
                    assert(topology.has_edge(current_node, b));
                    assert forall|n: NodeId| #[trigger]
                        visited@[n as int] implies pos.contains_key(n) && 0 <= pos[n]
                        < queue@.len() && queue@[pos[n]].node == n by {
                        if n != b {
                            assert(old_vis[n as int]);
                            assert(queue@[old_pos[n]].node == n);
                        } else {
                            assert(queue@[newi].node == n);
                        }
                    }
                    assert forall|i: int, bb: NodeId|
                        0 <= i < head && #[trigger] topology.has_edge(
                            queue@[i].node,
                            bb,
                        ) implies visited@[bb as int] && queue@[pos[bb]].dist <= queue@[i].dist
                        + 1 by {
                        assert(topology.has_edge(old_q[i].node, bb));
                        assert(old_vis[bb as int]);
                        assert(bb != b);
                        assert(old_q[old_pos[bb]].dist <= old_q[i].dist + 1);
                    }
                    assert forall|m: int|
                        0 <= m < k + 1 implies visited@[(#[trigger] nbrs@[m]) as int]
                        && queue@[pos[nbrs@[m]]].dist <= q_dist + 1 by {
                        if m < k {
                            assert(old_vis[nbrs@[m] as int]);
                            assert(nbrs@[m] != b);
                            assert(old_q[old_pos[nbrs@[m]]].dist <= q_dist + 1);
                        } else {
                            assert(queue@[pos[b]].dist <= q_dist + 1);
                        }
                    }
                }
            } else {
                proof {
                    let i0 = pos[b];
                    assert(queue@[i0].node == b);
                    if i0 >= head as int {
                        assert(queue@[i0].dist <= q_dist + 1);
                    } else {
                        assert(queue@[i0].dist <= queue@[head as int].dist);
                    }
                    assert forall|m: int|
                        0 <= m < k + 1 implies visited@[(#[trigger] nbrs@[m]) as int]
                        && queue@[pos[nbrs@[m]]].dist <= q_dist + 1 by {}
                }
            }
            k += 1;
        }
        proof {
            assert forall|i: int, bb: NodeId|
                0 <= i < head + 1 && #[trigger] topology.has_edge(
                    queue@[i].node,
                    bb,
                ) implies visited@[bb as int] && queue@[pos[bb]].dist <= queue@[i].dist + 1 by {
                if i == head as int {
                    // the neighbor loop discovered every neighbor of
                    // the node processed this round
                    assert(topology.neighbors_of(current_node).contains(bb));
                    let m = choose|m: int| 0 <= m < nbrs@.len() && nbrs@[m] == bb;
                    assert(visited@[nbrs@[m] as int] && queue@[pos[nbrs@[m]]].dist <= q_dist + 1);
                }
            }
        }
        head += 1;
    }
    proof {
        if reachable(topology, source_id, destination_id) {
            let p = choose|p: Seq<NodeId>| is_path(topology, p, source_id, destination_id);
            lemma_bfs_reach(
                topology,
                queue@,
                visited@,
                pos,
                head as int,
                source_id,
                destination_id,
                p,
                p.len() - 1,
            );
            let j = choose|j: int|
                #![trigger p[j]]
                0 <= j <= p.len() - 1 && visited@[p[j] as int] && queue@[pos[p[j]]].dist <= j && (
                pos[p[j]] >= head as int || j == p.len() - 1);
            assert(pos[p[j]] < queue@.len());
            assert(j == p.len() - 1);
            assert(queue@[pos[p[j]]].node == destination_id);
            assert(false);
        }
    }
    Vec::new()
}

/// Whether the weighted search may step into `n` on the way to `d`:
/// nodes with no role tag or the relay tag are open, and the
/// destination is always open whatever its tag.
pub open spec fn relay_ok(t: &Topology, n: NodeId, d: NodeId) -> bool {
    n == d || !t.types_view().contains_key(n) || t.types_view()[n] == "drone"@
}

/// A walk whose every node after the first is open to the weighted
/// search.
pub open spec fn eligible_path(t: &Topology, p: Seq<NodeId>, s: NodeId, d: NodeId) -> bool {
    &&& is_path(t, p, s, d)
    &&& forall|i: int| 1 <= i < p.len() ==> relay_ok(t, #[trigger] p[i], d)
}

/// Some such walk joins `s` to `d` in `t`.
pub open spec fn eligible_reachable(t: &Topology, s: NodeId, d: NodeId) -> bool {
    exists|p: Seq<NodeId>| eligible_path(t, p, s, d)
}

/// One weighted-search slot: a discovered node, its accumulated cost
/// from the source, and the slot it was discovered from.
struct PqEntry {
    node: NodeId,
    dist: u128,
    parent: usize,
}

/// Everything the weighted loop keeps true of its entry pool, its
/// active (not yet popped) slots, the per-node best costs `da`, the
/// finalized marks, and the position map `pos`.
spec fn dij_inv(
    t: &Topology,
    q: Seq<PqEntry>,
    act: Seq<usize>,
    da: Seq<u128>,
    vis: Seq<bool>,
    pos: Map<NodeId, int>,
    s: NodeId,
    d: NodeId,
) -> bool {
    &&& vis.len() == 256
    &&& da.len() == 256
    &&& q.len() >= 1
    &&& q[0].node == s
    &&& count_true(vis) <= 256
    // each later entry points back at an earlier one along an edge,
    // into a node the search may step into
    &&& (forall|i: int| 0 < i < q.len() ==> (#[trigger] q[i].parent) < i)
    &&& (forall|i: int|
        0 < i < q.len() ==> t.has_edge(q[q[i].parent as int].node, #[trigger] q[i].node))
    &&& (forall|i: int| 0 < i < q.len() ==> relay_ok(t, #[trigger] q[i].node, d))
    &&& (forall|ai: int| 0 <= ai < act.len() ==> (#[trigger] act[ai]) < q.len())
    // costs stay below the running bound, so sums cannot wrap
    &&& (forall|i: int|
        0 <= i < q.len() ==> (#[trigger] q[i].dist) <= count_true(vis) * (u64::MAX as u128))
    // a pooled node is discovered, and `pos` points at one of its slots
    &&& (forall|i: int| 0 <= i < q.len() ==> da[(#[trigger] q[i].node) as int] < u128::MAX)
    &&& (forall|n: NodeId|
        #![trigger da[n as int]]
        da[n as int] < u128::MAX ==> pos.contains_key(n) && 0 <= pos[n] < q.len() && q[pos[n]].node
            == n)
    &&& (forall|n: NodeId| #![trigger vis[n as int]] vis[n as int] ==> da[n as int] < u128::MAX)
    // a discovered node that is not finalized still has an active slot
    &&& (forall|n: NodeId|
        #![trigger da[n as int], vis[n as int]]
        da[n as int] < u128::MAX && !vis[n as int] ==> exists|ai: int|
            0 <= ai < act.len() && q[(#[trigger] act[ai]) as int].node == n)
    // the destination was never finalized: reaching it returns at once
    &&& !vis[d as int]
}

/// Every open neighbor of a finalized node is discovered.
spec fn dij_closed(t: &Topology, da: Seq<u128>, vis: Seq<bool>, d: NodeId) -> bool {
    forall|n: NodeId, b: NodeId|
        #![trigger vis[n as int], t.has_edge(n, b)]
        vis[n as int] && t.has_edge(n, b) && relay_ok(t, b, d) ==> da[b as int] < u128::MAX
}

/// At exhaustion every node on an eligible walk was finalized.
proof fn lemma_dij_reach(
    t: &Topology,
    q: Seq<PqEntry>,
    act: Seq<usize>,
    da: Seq<u128>,
    vis: Seq<bool>,
    pos: Map<NodeId, int>,
    s: NodeId,
    d: NodeId,
    p: Seq<NodeId>,
    k: int,
)
    requires
        dij_inv(t, q, act, da, vis, pos, s, d),
        dij_closed(t, da, vis, d),
        act.len() == 0,
        p.len() >= 1,
        p[0] == s,
        forall|i: int| 0 <= i < p.len() - 1 ==> #[trigger] t.has_edge(p[i], p[i + 1]),
        forall|i: int| 1 <= i < p.len() ==> relay_ok(t, #[trigger] p[i], d),
        0 <= k < p.len(),
    ensures
        vis[p[k] as int],
    decreases k,
{
    if k == 0 {
        // the source was discovered at the start; with no active slot
        // left it must have been finalized
        assert(da[s as int] < u128::MAX);
        assert(vis[s as int]);
    } else {
        lemma_dij_reach(t, q, act, da, vis, pos, s, d, p, k - 1);
        assert(0 <= k - 1 < p.len() - 1);
        assert(t.has_edge(p[k - 1], p[(k - 1) + 1]));
        assert(da[p[k] as int] < u128::MAX);
        assert(vis[p[k] as int]);
    }
}

/// Reliability-weighted shortest-path search: a priority search where
/// the cost of stepping into a node is that node's current estimated
/// drop rate, accumulated along the walk. Interior hops are restricted
/// to nodes tagged as relays (or untagged); the destination is always
/// admissible. The result is such a walk from `source_id` to
/// `destination_id`, or empty exactly when none exists.
#[verifier::rlimit(100)]
pub fn compute_route_dijkstra(
    topology: &mut Topology,
    source_id: NodeId,
    destination_id: NodeId,
) -> (r: Vec<NodeId>)
    requires
        forall|id: NodeId| old(topology).history_of(id).packets_dropped <= u64::MAX / 100,
    ensures
        *final(topology) == *old(topology),
        r@.len() == 0 <==> !eligible_reachable(old(topology), source_id, destination_id),
        r@.len() > 0 ==> eligible_path(old(topology), r@, source_id, destination_id),
{
    let drone_tag: String = "drone".to_owned();
    proof {
        reveal_strlit("drone");
    }
    let mut visited: Vec<bool> = vec![false; 256];
    let mut dist_arr: Vec<u128> = vec![u128::MAX; 256];
    let mut pool: Vec<PqEntry> = Vec::new();
    let mut active: Vec<usize> = Vec::new();
    pool.push(PqEntry { node: source_id, dist: 0, parent: 0 });
    active.push(0);
    dist_arr[source_id as usize] = 0;
    let ghost mut pos: Map<NodeId, int> = Map::empty().insert(source_id, 0int);
    proof {
        lemma_count_true_all_false(visited@);
        assert(pool@[0].node == source_id);
        assert(active@[0] == 0);
        assert forall|n: NodeId|
            #![trigger dist_arr@[n as int]]
            dist_arr@[n as int] < u128::MAX implies pos.contains_key(n) && 0 <= pos[n]
            < pool@.len() && pool@[pos[n]].node == n by {
            if n != source_id {
                assert(dist_arr@[n as int] == u128::MAX);
            }
        }
        assert forall|n: NodeId|
            #![trigger dist_arr@[n as int], visited@[n as int]]
            dist_arr@[n as int] < u128::MAX && !visited@[n as int] implies exists|ai: int|
            0 <= ai < active@.len() && pool@[(#[trigger] active@[ai]) as int].node == n by {
            assert(pool@[(active@[0]) as int].node == source_id);
        }
        assert(dij_inv(
            topology,
            pool@,
            active@,
            dist_arr@,
            visited@,
            pos,
            source_id,
            destination_id,
        ));
    }
    while active.len() > 0
        invariant
            *topology == *old(topology),
            dij_inv(
                topology,
                pool@,
                active@,
                dist_arr@,
                visited@,
                pos,
                source_id,
                destination_id,
            ),
            dij_closed(topology, dist_arr@, visited@, destination_id),
            drone_tag@ == "drone"@,
            forall|id: NodeId| old(topology).history_of(id).packets_dropped <= u64::MAX / 100,
        decreases 256 - count_true(visited@), active@.len(),
    {
        // pick the active slot with the least accumulated cost
        let mut best: usize = 0;
        let mut bi: usize = 1;
        while bi < active.len()
            invariant
                active@.len() >= 1,
                best < active@.len(),
                bi <= active@.len(),
                forall|ai: int| 0 <= ai < active@.len() ==> (#[trigger] active@[ai]) < pool@.len(),
                forall|m: int|
                    0 <= m < bi ==> pool@[active@[best as int] as int].dist <= pool@[(
                    #[trigger] active@[m]) as int].dist,
            decreases active@.len() - bi,
        {
            if pool[active[bi]].dist < pool[active[best]].dist {
                best = bi;
            }
            bi += 1;
        }
        let e_idx = active[best];
        let ghost old_act = active@;
        active.remove(best);
        let node = pool[e_idx].node;
        let e_dist = pool[e_idx].dist;
        proof {
            assert(e_idx < pool@.len());
            assert(dist_arr@[node as int] < u128::MAX);
            assert(e_dist <= count_true(visited@) * (u64::MAX as u128));
            assert forall|n: NodeId|
                #![trigger dist_arr@[n as int], visited@[n as int]]
                dist_arr@[n as int] < u128::MAX && !visited@[n as int] && n != node implies exists|
                ai: int,
            |
                0 <= ai < active@.len() && pool@[(#[trigger] active@[ai]) as int].node == n by {
                let ai0 = choose|ai0: int|
                    0 <= ai0 < old_act.len() && pool@[(#[trigger] old_act[ai0]) as int].node == n;
                assert(old_act[ai0] != e_idx || pool@[old_act[ai0] as int].node == node);
                assert(ai0 != best as int);
                if ai0 < best as int {
                    assert(active@[ai0] == old_act[ai0]);
                } else {
                    assert(active@[ai0 - 1] == old_act[ai0]);
                }
            }
        }
        if node == destination_id {
            // walk the parent chain back to the source
            let mut rev: Vec<NodeId> = Vec::new();
            let mut idx: usize = e_idx;
            rev.push(node);
            while idx != 0
                invariant
                    *topology == *old(topology),
                    pool@.len() >= 1,
                    pool@[0].node == source_id,
                    forall|i: int| 0 < i < pool@.len() ==> (#[trigger] pool@[i].parent) < i,
                    forall|i: int|
                        0 < i < pool@.len() ==> topology.has_edge(
                            pool@[pool@[i].parent as int].node,
                            #[trigger] pool@[i].node,
                        ),
                    forall|i: int|
                        0 < i < pool@.len() ==> relay_ok(
                            topology,
                            #[trigger] pool@[i].node,
                            destination_id,
                        ),
                    idx < pool@.len(),
                    rev@.len() >= 1,
                    rev@[0] == destination_id,
                    rev@[rev@.len() - 1] == pool@[idx as int].node,
                    forall|m: int|
                        0 <= m < rev@.len() - 1 ==> #[trigger] topology.has_edge(
                            rev@[m + 1],
                            rev@[m],
                        ),
                    forall|m: int|
                        0 <= m < rev@.len() - 1 ==> relay_ok(topology, #[trigger] rev@[m],
                        destination_id),
                decreases idx,
            {
                idx = pool[idx].parent;
                rev.push(pool[idx].node);
            }
            let n = rev.len();
            let mut route: Vec<NodeId> = Vec::new();
            let mut k: usize = 0;
            while k < n
                invariant
                    n == rev@.len(),
                    k <= n,
                    route@.len() == k,
                    forall|m: int| 0 <= m < k ==> #[trigger] route@[m] == rev@[n - 1 - m],
                decreases n - k,
            {
                route.push(rev[n - 1 - k]);
                k += 1;
            }
            proof {
                assert(route@[0] == rev@[n - 1]);
                assert(route@[route@.len() - 1] == rev@[0]);
                assert forall|i: int| 0 <= i < route@.len() - 1 implies #[trigger] topology
                    .has_edge(route@[i], route@[i + 1]) by {
                    assert(route@[i] == rev@[n - 1 - i]);
                    assert(route@[i + 1] == rev@[n - 1 - (i + 1)]);
                    assert(topology.has_edge(rev@[(n - 2 - i) + 1], rev@[n - 2 - i]));
                }
                assert forall|i: int| 1 <= i < route@.len() implies relay_ok(
                    topology,
                    #[trigger] route@[i],
                    destination_id,
                ) by {
                    assert(route@[i] == rev@[n - 1 - i]);
                    if n - 1 - i < n - 1 {
                        assert(relay_ok(topology, rev@[n - 1 - i], destination_id));
                    }
                }
                assert(eligible_path(topology, route@, source_id, destination_id));
                assert(eligible_reachable(topology, source_id, destination_id));
            }
            return route;
        }
        if !visited[node as usize] {
            let ghost old_vis = visited@;
            visited[node as usize] = true;
            proof {
                lemma_count_true_update(old_vis, node as int);
                lemma_count_true_le(visited@);
                let c = count_true(old_vis);
                assert(count_true(visited@) == c + 1);
                assert((c + 1) * (u64::MAX as u128) == c * (u64::MAX as u128) + (u64::MAX as u128))
                    by (nonlinear_arith);
                assert forall|i: int|
                    0 <= i < pool@.len() implies (#[trigger] pool@[i].dist) <= count_true(visited@)
                    * (u64::MAX as u128) by {
                    assert(pool@[i].dist <= c * (u64::MAX as u128));
                }
                assert(e_dist + (u64::MAX as u128) <= count_true(visited@) * (u64::MAX as u128));
            }
            let ghost count_now = count_true(visited@);
            let nbrs = topology.neighbors(node);
            let mut k: usize = 0;
            while k < nbrs.len()
                invariant
                    *topology == *old(topology),
                    dij_inv(
                        topology,
                        pool@,
                        active@,
                        dist_arr@,
                        visited@,
                        pos,
                        source_id,
                        destination_id,
                    ),
                    forall|n: NodeId, b2: NodeId|
                        #![trigger visited@[n as int], topology.has_edge(n, b2)]
                        visited@[n as int] && n != node && topology.has_edge(n, b2) && relay_ok(
                            topology,
                            b2,
                            destination_id,
                        ) ==> dist_arr@[b2 as int] < u128::MAX,
                    forall|id: NodeId|
                        old(topology).history_of(id).packets_dropped <= u64::MAX / 100,
                    k <= nbrs@.len(),
                    nbrs@ == topology.neighbors_of(node),
                    e_idx < pool@.len(),
                    pool@[e_idx as int].node == node,
                    node != destination_id,
                    visited@[node as int],
                    count_true(visited@) == count_now,
                    e_dist + (u64::MAX as u128) <= count_now * (u64::MAX as u128),
                    drone_tag@ == "drone"@,
                    forall|m: int|
                        0 <= m < k && relay_ok(topology, #[trigger] nbrs@[m], destination_id)
                            ==> dist_arr@[nbrs@[m] as int] < u128::MAX,
                decreases nbrs@.len() - k,
            {
                let b = nbrs[k];
                let mut skip = false;
                match topology.get_node_type(b) {
                    Some(ty) => {
                        if !(*ty == drone_tag) && b != destination_id {
                            skip = true;
                        }
                    },
                    None => {},
                }
                proof {
                    assert(skip == !relay_ok(topology, b, destination_id));
                }
                if !skip {
                    let cost = topology.pdr_for_node(b);
                    let nd = e_dist + (cost as u128);
                    if nd < dist_arr[b as usize] {
                        let ghost old_da = dist_arr@;
                        let ghost old_pool = pool@;
                        let ghost old_pos = pos;
                        let ghost old_act2 = active@;
                        dist_arr[b as usize] = nd;
                        pool.push(PqEntry { node: b, dist: nd, parent: e_idx });
                        let newi = active.len();
                        active.push(pool.len() - 1);
                        proof {
                            pos = pos.insert(b, old_pool.len() as int);
                            assert(pool@[old_pool.len() as int].node == b);
                            assert(nbrs@[k as int] == b);
                            assert(topology.neighbors_of(node).contains(b));
                            assert(topology.has_edge(node, b));
                            assert(pool@[old_pool.len() as int].parent == e_idx);
                            assert(relay_ok(topology, b, destination_id));
                            assert((cost as u128) <= (u64::MAX as u128));
                            assert(nd <= count_now * (u64::MAX as u128));
                            assert forall|i: int|
                                0 <= i < pool@.len() implies (#[trigger] pool@[i].dist)
                                <= count_true(visited@) * (u64::MAX as u128) by {
                                if i < old_pool.len() {
                                    assert(pool@[i].dist == old_pool[i].dist);
                                }
                            }
                            assert forall|n: NodeId|
                                #![trigger dist_arr@[n as int]]
                                dist_arr@[n as int] < u128::MAX implies pos.contains_key(n) && 0
                                <= pos[n] < pool@.len() && pool@[pos[n]].node == n by {
                                if n != b {
                                    assert(old_da[n as int] < u128::MAX);
                                    assert(old_pool[old_pos[n]].node == n);
                                }
                            }
                            assert forall|n: NodeId|
                                #![trigger dist_arr@[n as int], visited@[n as int]]
                                dist_arr@[n as int] < u128::MAX && !visited@[n as int] implies
                                exists|ai: int|
                                0 <= ai < active@.len() && pool@[(#[trigger] active@[ai]) as int].node
                                    == n by {
                                if n != b {
                                    assert(old_da[n as int] < u128::MAX);
                                    let ai0 = choose|ai0: int|
                                        0 <= ai0 < old_act2.len() && old_pool[(
                                        #[trigger] old_act2[ai0]) as int].node == n;
                                    assert(active@[ai0] == old_act2[ai0]);
                                    assert(pool@[active@[ai0] as int].node == n);
                                } else {
                                    assert(pool@[(active@[newi as int]) as int].node == b);
                                }
                            }
                            assert forall|n: NodeId, b2: NodeId|
                                #![trigger visited@[n as int], topology.has_edge(n, b2)]
                                visited@[n as int] && n != node && topology.has_edge(n, b2)
                                    && relay_ok(topology, b2, destination_id) implies dist_arr@[b2 as int]
                                < u128::MAX by {
                                if b2 != b {
                                    assert(old_da[b2 as int] < u128::MAX);
                                }
                            }
                        }
                    }
                }
                proof {
                    assert forall|m: int|
                        0 <= m < k + 1 && relay_ok(topology, #[trigger] nbrs@[m], destination_id)
                            implies dist_arr@[nbrs@[m] as int] < u128::MAX by {}
                }
                k += 1;
            }
            proof {
                // the neighbor loop discovered every open neighbor of
                // the node finalized this round
                assert forall|n: NodeId, b2: NodeId|
                    #![trigger visited@[n as int], topology.has_edge(n, b2)]
                    visited@[n as int] && topology.has_edge(n, b2) && relay_ok(
                        topology,
                        b2,
                        destination_id,
                    ) implies dist_arr@[b2 as int] < u128::MAX by {
                    if n == node {
                        assert(topology.neighbors_of(node).contains(b2));
                        let m = choose|m: int| 0 <= m < nbrs@.len() && nbrs@[m] == b2;
                        assert(relay_ok(topology, nbrs@[m], destination_id));
                    }
                }
            }
        } else {
            proof {
                assert forall|n: NodeId|
                    #![trigger dist_arr@[n as int], visited@[n as int]]
                    dist_arr@[n as int] < u128::MAX && !visited@[n as int] implies exists|ai: int|
                    0 <= ai < active@.len() && pool@[(#[trigger] active@[ai]) as int].node == n by {
                    assert(n != node);
                }
            }
        }
    }
    proof {
        if eligible_reachable(old(topology), source_id, destination_id) {
            let p = choose|p: Seq<NodeId>|
                eligible_path(old(topology), p, source_id, destination_id);
            lemma_dij_reach(
                topology,
                pool@,
                active@,
                dist_arr@,
                visited@,
                pos,
                source_id,
                destination_id,
                p,
                p.len() - 1,
            );
            assert(visited@[destination_id as int]);
            assert(false);
        }
    }
    Vec::new()
}

/// Repeated weighted searches over an unchanged store agree on whether
/// a route exists and, when one does, on both of its endpoints.
pub proof fn lemma_weighted_route_endpoints(
    t: &Topology,
    s: NodeId,
    d: NodeId,
    r1: Seq<NodeId>,
    r2: Seq<NodeId>,
)
    requires
        r1.len() == 0 <==> !eligible_reachable(t, s, d),
        r1.len() > 0 ==> eligible_path(t, r1, s, d),
        r2.len() == 0 <==> !eligible_reachable(t, s, d),
        r2.len() > 0 ==> eligible_path(t, r2, s, d),
    ensures
        (r1.len() == 0) == (r2.len() == 0),
        r1.len() > 0 ==> r1[0] == r2[0] && r1[r1.len() - 1] == r2[r2.len() - 1],
{
}

} // verus!
