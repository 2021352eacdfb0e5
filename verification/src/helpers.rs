//! Renumbering for a dense id space: which ids leave, which are sent to
//! another, and what number each id has once those that leave are gone.

use crate::BbId;
use std::collections::BTreeMap;
use vstd::prelude::*;

verus! {

/// The id `i` is marked to leave.
pub open spec fn leaves(marks: Map<BbId, Option<BbId>>, i: BbId) -> bool {
    marks.contains_key(i) && marks[i] is None
}

/// How many ids below `n` are marked to leave.
pub open spec fn gone_below(marks: Map<BbId, Option<BbId>>, n: nat) -> nat
    decreases n,
{
    if n == 0 {
        0
    } else {
        gone_below(marks, (n - 1) as nat) + if leaves(marks, (n - 1) as BbId) {
            1nat
        } else {
            0nat
        }
    }
}

/// No more ids below `n` leave than there are.
pub proof fn lemma_gone_below(marks: Map<BbId, Option<BbId>>, n: nat)
    ensures
        gone_below(marks, n) <= n,
    decreases n,
{
    if n > 0 {
        lemma_gone_below(marks, (n - 1) as nat);
    }
}

/// The number that the id `i` has once the ids that leave are gone.
pub open spec fn renumbered(marks: Map<BbId, Option<BbId>>, i: BbId) -> int {
    i - gone_below(marks, i as nat)
}

/// What becomes of the id `i`: nothing if it leaves, the new number of the
/// id it is sent to if it is sent to one, else its own new number.
pub open spec fn finalized(marks: Map<BbId, Option<BbId>>, i: BbId) -> Option<int> {
    if leaves(marks, i) {
        None
    } else if marks.contains_key(i) {
        Some(renumbered(marks, marks[i]->0))
    } else {
        Some(renumbered(marks, i))
    }
}

/// Every id below `max` that is sent to another is sent to one below `max`
/// that stays.
pub open spec fn resolvable(marks: Map<BbId, Option<BbId>>, max: BbId) -> bool {
    forall|i: BbId|
        i < max && #[trigger] marks.contains_key(i) && marks[i] is Some ==> marks[i]->0 < max
            && !leaves(marks, marks[i]->0)
}

/// A plan for renumbering the ids of a dense id space.
pub struct ReplaceLabels {
    trm: BTreeMap<BbId, Option<BbId>>,
    max: BbId,
}

impl ReplaceLabels {
    #[verifier::type_invariant]
    spec fn within(self) -> bool {
        forall|i: BbId| #[trigger] self.trm@.contains_key(i) ==> i <= self.max
    }

    /// The marks made so far: `None` for an id that leaves, the target for
    /// an id that is sent to another.
    pub closed spec fn marks(&self) -> Map<BbId, Option<BbId>> {
        self.trm@
    }

    /// The bound of the id space: the greatest id seen, and at least the
    /// bound that the plan was made with.
    pub closed spec fn bound(&self) -> BbId {
        self.max
    }

    /// A plan without marks for the ids below `max`.
    pub fn new(max: BbId) -> (r: Self)
        ensures
            r.marks() == Map::<BbId, Option<BbId>>::empty(),
            r.bound() == max,
    {
        ReplaceLabels { trm: BTreeMap::new(), max }
    }

    /// Whether no mark was made.
    pub fn is_empty(&self) -> (r: bool)
        ensures
            r == (self.marks() == Map::<BbId, Option<BbId>>::empty()),
    {
        let r = self.trm.is_empty();
        proof {
            if r {
                assert(self.trm@ =~= Map::<BbId, Option<BbId>>::empty());
            }
        }
        r
    }

    /// Marks `from` to leave, or to be sent to `to`. To send an id to
    /// itself marks nothing. The bound grows to hold both ids.
    pub fn mark(&mut self, from: BbId, to: Option<BbId>)
        ensures
            final(self).bound() >= old(self).bound(),
            final(self).bound() >= from,
            to matches Some(x) ==> final(self).bound() >= x,
            final(self).bound() == old(self).bound() || final(self).bound() == from || to == Some(
                final(self).bound(),
            ),
            final(self).marks() == if to == Some(from) {
                old(self).marks()
            } else {
                old(self).marks().insert(from, to)
            },
    {
        proof {
            use_type_invariant(&*self);
        }
        let mut max = self.max;
        if from > max {
            max = from;
        }
        if let Some(x) = to {
            if x > max {
                max = x;
            }
        }
        let same = match to {
            Some(x) => x == from,
            None => false,
        };
        let mut trm: BTreeMap<BbId, Option<BbId>> = BTreeMap::new();
        core::mem::swap(&mut self.trm, &mut trm);
        if !same {
            trm.insert(from, to);
        }
        self.max = max;
        self.trm = trm;
    }

    /// The new number of every id, and how many ids leave.
    ///
    /// The first part holds, for each id below the bound, what becomes of
    /// it: `None` if it leaves, else its new number, or that of the id it
    /// is sent to. A mark on the bound itself follows as it was made. The
    /// second part counts the ids below the bound that leave.
    pub fn finalize(self) -> (r: (Vec<Option<BbId>>, BbId))
        requires
            resolvable(self.marks(), self.bound()),
        ensures
            r.1 == gone_below(self.marks(), self.bound() as nat),
            r.0@.len() == self.bound() + if self.marks().contains_key(self.bound()) {
                1int
            } else {
                0int
            },
            forall|i: int|
                0 <= i < self.bound() ==> match (#[trigger] r.0@[i]) {
                    Some(n) => finalized(self.marks(), i as BbId) == Some(n as int),
                    None => finalized(self.marks(), i as BbId) is None,
                },
            self.marks().contains_key(self.bound()) ==> r.0@[self.bound() as int]
                == self.marks()[self.bound()],
    {
        let ghost marks = self.trm@;
        let max = self.max;
        let mut offset: BbId = 0;
        let mut trm2: Vec<Option<BbId>> = Vec::new();
        let mut i: usize = 0;
        while i < max
            invariant
                i <= max,
                marks == self.trm@,
                max == self.max,
                offset == gone_below(marks, i as nat),
                offset <= i,
                trm2@.len() == i,
                forall|k: int|
                    0 <= k < i ==> #[trigger] trm2@[k] == if leaves(marks, k as BbId) {
                        None
                    } else {
                        Some((k - gone_below(marks, k as nat)) as BbId)
                    },
            decreases max - i,
        {
            let gone = match self.trm.get(&i) {
                Some(v) => v.is_none(),
                None => false,
            };
            assert(gone == leaves(marks, i));
            if gone {
                offset += 1;
                trm2.push(None);
            } else {
                trm2.push(Some(i - offset));
            }
            i += 1;
        }
        let mut out: Vec<Option<BbId>> = Vec::new();
        let mut i: usize = 0;
        while i < max
            invariant
                i <= max,
                marks == self.trm@,
                max == self.max,
                resolvable(marks, max),
                trm2@.len() == max,
                forall|k: int|
                    0 <= k < max ==> #[trigger] trm2@[k] == if leaves(marks, k as BbId) {
                        None
                    } else {
                        Some((k - gone_below(marks, k as nat)) as BbId)
                    },
                out@.len() == i,
                forall|k: int|
                    0 <= k < i ==> match (#[trigger] out@[k]) {
                        Some(n) => finalized(marks, k as BbId) == Some(n as int),
                        None => finalized(marks, k as BbId) is None,
                    },
            decreases max - i,
        {
            let seen: Option<Option<BbId>> = match self.trm.get(&i) {
                Some(v) => Some(*v),
                None => None,
            };
            proof {
                lemma_gone_below(marks, i as nat);
            }
            let v = match seen {
                Some(Some(y)) => {
                    assert(marks.contains_key(i) && marks[i] == Some(y));
                    assert(y < max && !leaves(marks, y));
                    proof {
                        lemma_gone_below(marks, y as nat);
                    }
                    trm2[y]
                },
                Some(None) => None,
                None => trm2[i],
            };
            out.push(v);
            i += 1;
        }
        match self.trm.get(&max) {
            Some(v) => {
                out.push(*v);
            },
            None => {},
        }
        (out, offset)
    }
}

} // verus!
