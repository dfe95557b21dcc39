//! The step-scoped duplicate-forward suppression set.
//!
//! Within one simulated step, each packet identity must never be forwarded
//! to the same neighbor twice, even when several copies of that identity
//! pass through the step's queue. The routing engine keeps one `TargetSet`
//! per step, marks every pair it forwards, and refuses a pair already
//! marked. The set is created fresh each step: suppression never persists
//! across steps.

use vstd::prelude::*;

verus! {

/// The record of which node ids each packet identity has already been
/// forwarded to in the current step.
pub struct TargetSet {
    /// The marked pairs, in marking order.
    pub marks: Vec<(u32, u32)>,
}

impl TargetSet {
    /// Whether identity `pid` has already targeted node `nid` this step.
    pub open spec fn targeted(self, pid: u32, nid: u32) -> bool {
        self.marks@.contains((pid, nid))
    }

    /// The suppression record as a set of identity-target pairs.
    pub open spec fn to_set(self) -> Set<(u32, u32)> {
        Set::new(|pn: (u32, u32)| self.targeted(pn.0, pn.1))
    }

    /// An empty suppression set, holding no pair.
    pub fn new() -> (r: Self)
        ensures
            forall|p: u32, n: u32| !r.targeted(p, n),
    {
        TargetSet { marks: Vec::new() }
    }

    /// Whether identity `pid` has already targeted node `nid` this step.
    pub fn is_targeted(&self, pid: u32, nid: u32) -> (r: bool)
        ensures
            r == self.targeted(pid, nid),
    {
        let mut k: usize = 0;
        while k < self.marks.len()
            invariant
                k <= self.marks.len(),
                forall|m: int| 0 <= m < k ==> self.marks@[m] != (pid, nid),
            decreases self.marks.len() - k,
        {
            if self.marks[k].0 == pid && self.marks[k].1 == nid {
                return true;
            }
            k += 1;
        }
        false
    }

    /// Record that identity `pid` has now targeted node `nid` this step.
    pub fn mark(&mut self, pid: u32, nid: u32)
        ensures
            forall|p: u32, n: u32|
                #[trigger] final(self).targeted(p, n) <==> old(self).targeted(p, n) || (p == pid
                    && n == nid),
    {
        let ghost old_marks = self.marks@;
        self.marks.push((pid, nid));
        proof {
            assert forall|p: u32, n: u32|
                #[trigger] self.targeted(p, n) <==> old(self).targeted(p, n) || (p == pid && n
                    == nid) by {
                if old(self).targeted(p, n) {
                    let k = choose|k: int| 0 <= k < old_marks.len() && old_marks[k] == (p, n);
                    assert(self.marks@[k] == (p, n));
                }
                if p == pid && n == nid {
                    assert(self.marks@[self.marks@.len() - 1] == (p, n));
                }
                if self.targeted(p, n) {
                    let k = choose|k: int|
                        0 <= k < self.marks@.len() && self.marks@[k] == (p, n);
                    if k < old_marks.len() {
                        assert(old_marks[k] == (p, n));
                    }
                }
            }
        }
    }
}

} // verus!
