//! In-flight message copies and the loop-prevention rule.

use vstd::prelude::*;

verus! {

/// One in-flight message copy.
///
/// `path` is the ordered list of node ids visited so far; it doubles as the
/// loop-prevention set, so it never holds a repeated id. A packet's identity
/// is the step at which its original copy was injected: every copy descended
/// from one injection shares it.
pub struct Packet {
    /// The step at which the packet was injected; its identity within a run.
    pub origin_step: u32,
    /// Ordered ids of the nodes visited so far; never empty, never repeating.
    pub path: Vec<u32>,
    /// The id of the node the packet is addressed to.
    pub dest: u32,
    /// Successful forwards so far.
    pub hops: u32,
    /// Remaining permitted forwards; the packet is silently dropped at zero.
    pub ttl: u32,
}

/// No id occurs twice in the sequence.
pub open spec fn nodup(s: Seq<u32>) -> bool {
    forall|i: int, j: int| 0 <= i < j < s.len() ==> s[i] != s[j]
}

impl Packet {
    /// The id of the node currently holding this copy: the last of the path.
    pub open spec fn current(self) -> u32
        recommends
            self.path@.len() > 0,
    {
        self.path@.last()
    }

    /// Well-formedness for a population of `n` nodes: the path is a nonempty
    /// duplicate-free list of valid ids, the destination is a valid id, and
    /// the hop count plus the remaining TTL fits the counter. The sum is
    /// preserved by forwarding (one more hop, one less TTL), so hop counts
    /// never overflow.
    pub open spec fn wf(self, n: int) -> bool {
        &&& self.path@.len() > 0
        &&& nodup(self.path@)
        &&& forall|k: int| 0 <= k < self.path@.len() ==> self.path@[k] < n
        &&& self.dest < n
        &&& self.hops as int + self.ttl as int <= u32::MAX as int
    }

    /// An identical copy of this packet.
    pub fn duplicate(&self) -> (r: Packet)
        ensures
            r.origin_step == self.origin_step,
            r.path@ == self.path@,
            r.dest == self.dest,
            r.hops == self.hops,
            r.ttl == self.ttl,
    {
        Packet {
            origin_step: self.origin_step,
            path: copy_ids(&self.path),
            dest: self.dest,
            hops: self.hops,
            ttl: self.ttl,
        }
    }
}

/// Whether `x` occurs in the id list.
pub fn contains_id(v: &Vec<u32>, x: u32) -> (r: bool)
    ensures
        r == v@.contains(x),
{
    let mut k: usize = 0;
    while k < v.len()
        invariant
            k <= v.len(),
            forall|m: int| 0 <= m < k ==> v@[m] != x,
        decreases v.len() - k,
    {
        if v[k] == x {
            return true;
        }
        k += 1;
    }
    false
}

/// An owned copy of an id list.
pub fn copy_ids(v: &Vec<u32>) -> (r: Vec<u32>)
    ensures
        r@ == v@,
{
    let mut r: Vec<u32> = Vec::new();
    let mut k: usize = 0;
    while k < v.len()
        invariant
            k <= v.len(),
            r@ == v@.subrange(0, k as int),
        decreases v.len() - k,
    {
        r.push(v[k]);
        proof {
            assert(r@ =~= v@.subrange(0, k + 1 as int));
        }
        k += 1;
    }
    proof {
        assert(r@ =~= v@);
    }
    r
}

/// Appending a node that is not yet on the path keeps the path free of
/// repeats: the loop-prevention rule the routing engine forwards under.
pub proof fn lemma_path_extension_nodup(path: Seq<u32>, next: u32)
    requires
        nodup(path),
        !path.contains(next),
    ensures
        nodup(path.push(next)),
{
    let p = path.push(next);
    assert forall|i: int, j: int| 0 <= i < j < p.len() implies p[i] != p[j] by {
        if j == path.len() {
            assert(p[i] == path[i]);
            if path[i] == next {
                assert(path.contains(next));
            }
        }
    }
}

} // verus!
