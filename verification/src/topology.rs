//! Network construction: directed reachability edges from positions and
//! per-node transmission ranges.
//!
//! Node `i` lists node `j` as a neighbor exactly when `j` lies within `i`'s
//! own radius. Reachability is intentionally asymmetric: a long-range base
//! station may reach a smartphone that cannot reach back. A node with no
//! neighbor in range simply gets an empty list.

use vstd::prelude::*;
use crate::node::Node;
use crate::node::dist_sq;

verus! {

/// Whether node `i` lists node `j` as reachable: they are distinct and the
/// squared distance is within `i`'s squared transmission radius. Only the
/// sender's range matters, so the relation need not be symmetric.
pub open spec fn reaches(nodes: Seq<Node>, i: int, j: int) -> bool {
    &&& i != j
    &&& dist_sq(nodes[i].x, nodes[i].y, nodes[j].x, nodes[j].y) <= (nodes[i].range as int) * (
    nodes[i].range as int)
}

/// The directed neighbor list of node `i`: every node it reaches, in
/// increasing id order.
pub fn neighbors_of(nodes: &Vec<Node>, i: usize) -> (r: Vec<u32>)
    requires
        i < nodes.len(),
        nodes.len() <= u32::MAX,
    ensures
        forall|k: int|
            0 <= k < r.len() ==> #[trigger] r@[k] < nodes.len() && reaches(
                nodes@,
                i as int,
                r@[k] as int,
            ),
        forall|k1: int, k2: int| 0 <= k1 < k2 < r.len() ==> r@[k1] < r@[k2],
        forall|j: int|
            0 <= j < nodes.len() && #[trigger] reaches(nodes@, i as int, j) ==> r@.contains(
                j as u32,
            ),
{
    let mut r: Vec<u32> = Vec::new();
    let rg = nodes[i].range;
    assert((rg as int) * (rg as int) <= (u32::MAX as int) * (u32::MAX as int)) by (nonlinear_arith)
        requires
            rg <= u32::MAX,
    ;
    let range_sq: u128 = (rg as u128) * (rg as u128);
    let mut j: usize = 0;
    while j < nodes.len()
        invariant
            i < nodes.len(),
            nodes.len() <= u32::MAX,
            j <= nodes.len(),
            range_sq == (nodes@[i as int].range as int) * (nodes@[i as int].range as int),
            forall|k: int|
                0 <= k < r.len() ==> #[trigger] r@[k] < j && reaches(
                    nodes@,
                    i as int,
                    r@[k] as int,
                ),
            forall|k1: int, k2: int| 0 <= k1 < k2 < r.len() ==> r@[k1] < r@[k2],
            forall|j0: int|
                0 <= j0 < j && #[trigger] reaches(nodes@, i as int, j0) ==> r@.contains(j0 as u32),
        decreases nodes.len() - j,
    {
        if j != i {
            let d = nodes[i].distance_sq_to(&nodes[j]);
            if d <= range_sq {
                let ghost old_r = r@;
                r.push(j as u32);
                assert forall|j0: int|
                    0 <= j0 < j + 1 && #[trigger] reaches(nodes@, i as int, j0) implies r@.contains(
                    j0 as u32,
                ) by {
                    if j0 < j {
                        assert(old_r.contains(j0 as u32));
                        let k = choose|k: int| 0 <= k < old_r.len() && old_r[k] == j0 as u32;
                        assert(r@[k] == j0 as u32);
                    } else {
                        assert(r@[r@.len() - 1] == j0 as u32);
                    }
                }
            }
        }
        j += 1;
    }
    r
}

/// Rebuild the whole population with every node's neighbor list derived from
/// the current positions and ranges; every other field is kept.
///
/// The characterization is exact: `r[i].peers` holds an id `j` only if `i`
/// reaches `j`, holds every id `i` reaches, and is strictly increasing, which
/// pins the list down uniquely.
pub fn connect_nodes(nodes: Vec<Node>) -> (r: Vec<Node>)
    requires
        nodes.len() <= u32::MAX,
    ensures
        r.len() == nodes.len(),
        forall|i: int| 0 <= i < r.len() ==> node_connected(nodes@, r@, i),
{
    let n = nodes.len();
    let mut out: Vec<Node> = Vec::new();
    let mut i: usize = 0;
    while i < n
        invariant
            n == nodes.len(),
            nodes.len() <= u32::MAX,
            i <= n,
            out.len() == i,
            forall|i0: int| 0 <= i0 < i ==> node_connected(nodes@, out@, i0),
        decreases n - i,
    {
        let peers = neighbors_of(&nodes, i);
        let ghost peers_view = peers@;
        let ghost old_out = out@;
        let src = &nodes[i];
        out.push(
            Node {
                id: src.id,
                x: src.x,
                y: src.y,
                node_type: src.node_type,
                active: src.active,
                energy: src.energy,
                range: src.range,
                peers,
                wallet: src.wallet,
            },
        );
        proof {
            assert(out@[i as int].peers@ == peers_view);
            assert(node_connected(nodes@, out@, i as int));
            assert forall|i0: int| 0 <= i0 < i implies node_connected(nodes@, out@, i0) by {
                assert(out@[i0] == old_out[i0]);
                assert(node_connected(nodes@, old_out, i0));
            }
        }
        i += 1;
    }
    out
}

/// Node `i`'s neighbor list is exact with respect to the population it
/// belongs to: it holds an id `j` only if `i` reaches `j`, holds every id
/// `i` reaches, and is strictly increasing, which pins it down uniquely.
pub open spec fn peers_exact(nodes: Seq<Node>, i: int) -> bool {
    let b = nodes[i];
    &&& forall|k: int|
        0 <= k < b.peers@.len() ==> #[trigger] b.peers@[k] < nodes.len() && reaches(
            nodes,
            i,
            b.peers@[k] as int,
        )
    &&& forall|k1: int, k2: int| 0 <= k1 < k2 < b.peers@.len() ==> b.peers@[k1] < b.peers@[k2]
    &&& forall|j: int|
        0 <= j < nodes.len() && #[trigger] reaches(nodes, i, j) ==> b.peers@.contains(j as u32)
}

/// Reachability depends only on positions and ranges, so two populations
/// that agree on them agree on every edge.
pub proof fn lemma_reaches_congruence(a: Seq<Node>, b: Seq<Node>)
    requires
        a.len() == b.len(),
        forall|i: int|
            #![trigger a[i], b[i]]
            0 <= i < a.len() ==> a[i].x == b[i].x && a[i].y == b[i].y && a[i].range == b[i].range,
    ensures
        forall|i: int, j: int|
            #![trigger reaches(a, i, j)]
            #![trigger reaches(b, i, j)]
            0 <= i < a.len() && 0 <= j < a.len() ==> (reaches(a, i, j) <==> reaches(b, i, j)),
{
    assert forall|i: int, j: int|
        #![trigger reaches(a, i, j)]
        #![trigger reaches(b, i, j)]
        0 <= i < a.len() && 0 <= j < a.len() implies (reaches(a, i, j) <==> reaches(b, i, j)) by {
        assert(a[i].x == b[i].x && a[i].y == b[i].y && a[i].range == b[i].range);
        assert(a[j].x == b[j].x && a[j].y == b[j].y);
    }
}

/// Every consecutive pair of the path is a directed edge of the topology:
/// each listed node names the next one on its own neighbor list.
pub open spec fn path_in_topology(nodes: Seq<Node>, path: Seq<u32>) -> bool {
    forall|t: int|
        #![trigger path[t]]
        0 <= t < path.len() - 1 ==> nodes[path[t] as int].peers@.contains(path[t + 1])
}

/// Whether a path follows the topology depends only on the neighbor lists,
/// so populations that agree on them agree on every path.
pub proof fn lemma_path_in_topology_congruence(a: Seq<Node>, b: Seq<Node>, path: Seq<u32>)
    requires
        a.len() == b.len(),
        forall|i: int| #![trigger a[i], b[i]] 0 <= i < a.len() ==> a[i].peers@ == b[i].peers@,
        forall|t: int| #![trigger path[t]] 0 <= t < path.len() ==> path[t] < a.len(),
        path_in_topology(a, path),
    ensures
        path_in_topology(b, path),
{
    assert forall|t: int|
        #![trigger path[t]]
        0 <= t < path.len() - 1 implies b[path[t] as int].peers@.contains(path[t + 1]) by {
        assert(a[path[t] as int].peers@.contains(path[t + 1]));
        assert(a[path[t] as int].peers@ == b[path[t] as int].peers@);
    }
}

/// Node `i` of `out` equals node `i` of `orig` in every field but `peers`,
/// and its `peers` is exactly the strictly increasing list of the ids that
/// `i` reaches in `orig`.
pub open spec fn node_connected(orig: Seq<Node>, out: Seq<Node>, i: int) -> bool {
    let a = orig[i];
    let b = out[i];
    &&& b.id == a.id
    &&& b.x == a.x
    &&& b.y == a.y
    &&& b.node_type == a.node_type
    &&& b.active == a.active
    &&& b.energy == a.energy
    &&& b.range == a.range
    &&& b.wallet == a.wallet
    &&& forall|k: int|
        0 <= k < b.peers@.len() ==> #[trigger] b.peers@[k] < orig.len() && reaches(
            orig,
            i,
            b.peers@[k] as int,
        )
    &&& forall|k1: int, k2: int| 0 <= k1 < k2 < b.peers@.len() ==> b.peers@[k1] < b.peers@[k2]
    &&& forall|j: int|
        0 <= j < orig.len() && #[trigger] reaches(orig, i, j) ==> b.peers@.contains(j as u32)
}

} // verus!
