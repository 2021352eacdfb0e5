//! The optimizing pass: blocks that cannot be reached from a public block
//! leave, and a block that is referred to by one other block alone is
//! merged into it.

use super::laws::{law_optimize_keeps_sound, lemma_pass};
use super::{lemma_views, views, Arena, ABB};
use crate::bb::{BasicBlock, BasicBlockInner, BlockView, InnerView};
use crate::graph::{wf, Blocks, Labels};
use crate::ids::{ascending, keys_sorted};
use crate::jump::{seq_targets, seq_trgs, IntoTargetsIter, Unconditional};
use crate::labels::{rewritten, LabelMap};
use crate::reach::{counted, head_of, lemma_counted_head, live, mark, reachable, sole_source};
use crate::BbId;
use std::collections::{BTreeMap, BTreeSet};
use vstd::prelude::*;

verus! {

/// The blocks and labels while blocks are merged.
pub struct Merged<S, C> {
    pub blocks: Blocks<S, C>,
    pub labels: Labels,
}

/// The state that holds `blocks` and `labels`.
pub open spec fn state_of<S, C>(blocks: Blocks<S, C>, labels: Labels) -> Merged<S, C> {
    Merged { blocks, labels }
}

/// The plan that sends `from` to `to` and leaves every other id.
pub open spec fn one_to(from: BbId, to: BbId) -> Map<BbId, Option<BbId>> {
    Map::<BbId, Option<BbId>>::empty().insert(from, Some(to))
}


/// Whether the block `t` can be merged into `h` as the blocks stand in
/// `cur`: `h` is there, is concrete, has no conditional jump, exits by a
/// jump to `t` and refers to `t` nowhere else; `t` is another block, is
/// there, is not public, is concrete and does not refer to itself.
pub open spec fn mergeable<S, C>(cur: Blocks<S, C>, t: BbId, h: BbId) -> bool where
    S: IntoTargetsIter<Target = BbId>,
    C: IntoTargetsIter<Target = BbId>,
 {
    &&& h != t
    &&& cur.contains_key(h)
    &&& cur[h].inner is Concrete
    &&& cur[h].inner->condjmp is None
    &&& cur[h].inner->next == Unconditional::Jump(t)
    &&& !seq_targets(cur[h].inner->statements).contains(t)
    &&& cur.contains_key(t)
    &&& !cur[t].is_public
    &&& cur[t].inner is Concrete
    &&& !cur[t].targets().contains(t)
}

/// The block `h` after `t` was merged into it: the statements of `h`, then
/// those of `t`, with the conditional jump and the exit of `t`.
pub open spec fn joined<S, C>(h: BlockView<S, C, BbId>, t: BlockView<S, C, BbId>) -> BlockView<
    S,
    C,
    BbId,
> {
    BlockView {
        inner: InnerView::Concrete {
            statements: h.inner->statements + t.inner->statements,
            condjmp: t.inner->condjmp,
            next: t.inner->next,
        },
        is_public: h.is_public,
    }
}

/// The state after `t` was merged into `h`: `t` is gone, and its labels
/// are bound to `h`.
pub open spec fn merged_into<S, C>(st: Merged<S, C>, t: BbId, h: BbId) -> Merged<S, C> {
    Merged {
        blocks: st.blocks.insert(h, joined(st.blocks[h], st.blocks[t])).remove(t),
        labels: rewritten(st.labels, one_to(t, h)),
    }
}

/// The state after the id `t` had its turn: merged into its head, where it
/// has one and the merge is allowed.
pub open spec fn merge_one<S, C>(
    st: Merged<S, C>,
    first: Blocks<S, C>,
    among: Set<BbId>,
    t: BbId,
) -> Merged<S, C> where S: IntoTargetsIter<Target = BbId>, C: IntoTargetsIter<Target = BbId> {
    match head_of(first, among, t) {
        Some(h) => if mergeable(st.blocks, t, h) {
            merged_into(st, t, h)
        } else {
            st
        },
        None => st,
    }
}

/// The state after every id below `n` had its turn, in increasing order.
pub open spec fn merge_below<S, C>(
    st: Merged<S, C>,
    first: Blocks<S, C>,
    among: Set<BbId>,
    n: nat,
) -> Merged<S, C> where S: IntoTargetsIter<Target = BbId>, C: IntoTargetsIter<Target = BbId>
    decreases n,
{
    if n == 0 {
        st
    } else {
        merge_one(merge_below(st, first, among, (n - 1) as nat), first, among, (n - 1) as BbId)
    }
}

/// The state after every id had its turn.
pub open spec fn merge_all_of<S, C>(first: Blocks<S, C>, labels: Labels) -> Merged<S, C> where
    S: IntoTargetsIter<Target = BbId>,
    C: IntoTargetsIter<Target = BbId>,
 {
    merge_below(state_of(first, labels), first, live(first), (usize::MAX + 1) as nat)
}

/// Ids that have no head change nothing.
proof fn lemma_merge_gap<S, C>(
    st: Merged<S, C>,
    first: Blocks<S, C>,
    among: Set<BbId>,
    a: nat,
    b: nat,
) where S: IntoTargetsIter<Target = BbId>, C: IntoTargetsIter<Target = BbId>
    requires
        a <= b <= usize::MAX + 1,
        forall|k: BbId| a <= k < b ==> head_of(first, among, k) is None,
    ensures
        merge_below(st, first, among, b) == merge_below(st, first, among, a),
    decreases b - a,
{
    if a < b {
        lemma_merge_gap(st, first, among, a, (b - 1) as nat);
        assert(head_of(first, among, (b - 1) as BbId) is None);
    }
}

/// What is done to the labels once the merging is over: a label bound to
/// a block of `cur` that is not live leaves with it.
pub open spec fn plan_of<S, C>(cur: Blocks<S, C>, among: Set<BbId>) -> Map<BbId, Option<BbId>> {
    Map::new(|id: BbId| cur.contains_key(id) && !among.contains(id), |id: BbId| None)
}

/// Whether the pass changes anything: some block is dead or was merged
/// away.
pub open spec fn changes<S, C>(first: Blocks<S, C>, cur: Blocks<S, C>, among: Set<BbId>) -> bool {
    exists|id: BbId|
        #[trigger] first.contains_key(id) && (!cur.contains_key(id) || !among.contains(id))
}

/// The arena `(b1, l1, hint1)` is what one pass makes of `(b0, l0, hint0)`,
/// and `r` is what the pass reports: the blocks are merged, each id having
/// its turn, and of what the merging leaves the live blocks remain, as the
/// merging left them, with the labels bound to them.
pub open spec fn optimized<S, C>(
    b0: Blocks<S, C>,
    l0: Labels,
    hint0: usize,
    b1: Blocks<S, C>,
    l1: Labels,
    hint1: usize,
    r: bool,
) -> bool where S: IntoTargetsIter<Target = BbId>, C: IntoTargetsIter<Target = BbId> {
    let among = live(b0);
    let m = merge_all_of(b0, l0);
    &&& r == changes(b0, m.blocks, among)
    &&& forall|id: BbId|
        #![trigger b1.contains_key(id)]
        #![trigger m.blocks.contains_key(id)]
        b1.contains_key(id) <==> m.blocks.contains_key(id) && among.contains(id)
    &&& forall|id: BbId| b1.contains_key(id) ==> #[trigger] b1[id] == m.blocks[id]
    &&& l1 == rewritten(m.labels, plan_of(m.blocks, among))
    &&& hint1 <= hint0
    &&& forall|id: BbId| #[trigger] b0.contains_key(id) && !b1.contains_key(id) ==> hint1 <= id
    &&& hint1 == hint0 || (b0.contains_key(hint1) && !b1.contains_key(hint1))
}

/// The pass merges `t` into `h`: `h` is the one live block that refers to
/// `t`, and the two can be merged as they stand in `b0`; `h` is public, or
/// has its turn after `t`, or is not itself referred to by one live block
/// alone; and no block that has its turn before `t` is referred to by `t`
/// alone.
pub open spec fn merges<S, C>(b0: Blocks<S, C>, h: BbId, t: BbId) -> bool where
    S: IntoTargetsIter<Target = BbId>,
    C: IntoTargetsIter<Target = BbId>,
 {
    &&& sole_source(b0, live(b0), t, h)
    &&& mergeable(b0, t, h)
    &&& b0[h].is_public || t < h || head_of(b0, live(b0), h) is None
    &&& forall|z: BbId| z < t ==> head_of(b0, live(b0), z) != Some(t)
}

/// What a pass from `(b0, l0)` to `(b1, l1)` that merges `t` into `h`
/// leaves of the two: no block `t`; the block `h`, if it is public; and
/// where `h` remains, it holds its own statements followed by those of
/// `t`, with the conditional jump and the exit of `t`, and the labels of
/// `t` are bound to it.
pub open spec fn merged_pair<S, C>(
    b0: Blocks<S, C>,
    l0: Labels,
    b1: Blocks<S, C>,
    l1: Labels,
    h: BbId,
    t: BbId,
) -> bool {
    &&& !b1.contains_key(t)
    &&& b0[h].is_public ==> b1.contains_key(h)
    &&& b1.contains_key(h) ==> b1[h] == joined(b0[h], b0[t])
    &&& b1.contains_key(h) ==> forall|l: Seq<char>|
        l0.contains_key(l) && l0[l] == t ==> #[trigger] l1.contains_key(l) && l1[l] == h
}

/// Whether `t` is one of `v`.
fn holds(v: &Vec<BbId>, t: BbId) -> (r: bool)
    ensures
        r == v@.contains(t),
{
    let mut i: usize = 0;
    while i < v.len()
        invariant
            i <= v.len(),
            forall|k: int| 0 <= k < i ==> v@[k] != t,
        decreases v.len() - i,
    {
        if v[i] == t {
            return true;
        }
        i += 1;
    }
    false
}

/// Merges the block `t` into `h`, if that is allowed as the blocks stand.
/// Returns whether it did.
fn try_merge<S, C>(
    bbs: &mut BTreeMap<BbId, ABB<S, C>>,
    labels: &mut LabelMap,
    t: BbId,
    h: BbId,
) -> (r: bool) where S: IntoTargetsIter<Target = BbId>, C: IntoTargetsIter<Target = BbId>
    ensures
        r == mergeable(views(old(bbs)@), t, h),
        r ==> state_of(views(final(bbs)@), final(labels)@) == merged_into(
            state_of(views(old(bbs)@), old(labels)@),
            t,
            h,
        ),
        !r ==> final(bbs)@ == old(bbs)@ && final(labels)@ == old(labels)@,
{
    let ghost cur = views(bbs@);
    if h == t {
        return false;
    }
    match bbs.get(&h) {
        Some(head) => {
            assert(cur[h] == head@);
            match &head.inner {
                BasicBlockInner::Concrete { statements, condjmp, next } => {
                    let to_t = match next {
                        Unconditional::Jump(x) => *x == t,
                        _ => false,
                    };
                    if condjmp.is_some() || !to_t {
                        return false;
                    }
                    let inside = seq_trgs(statements);
                    if holds(&inside, t) {
                        return false;
                    }
                },
                BasicBlockInner::Placeholder { .. } => {
                    return false;
                },
            }
        },
        None => {
            return false;
        },
    }
    match bbs.get(&t) {
        Some(tail) => {
            assert(cur[t] == tail@);
            if tail.is_public || !tail.inner.is_concrete() {
                return false;
            }
            let own = tail.inner.into_trgs_iter();
            if holds(&own, t) {
                return false;
            }
        },
        None => {
            return false;
        },
    }
    assert(mergeable(cur, t, h));
    let tail = bbs.remove(&t);
    let head = bbs.remove(&h);
    match (head, tail) {
        (Some(hb), Some(tb)) => {
            let ghost hv = hb@;
            let ghost tv = tb@;
            let BasicBlock { inner: hi, is_public } = hb;
            let BasicBlock { inner: ti, is_public: _ } = tb;
            match (hi, ti) {
                (
                    BasicBlockInner::Concrete { statements: mut hs, condjmp: _, next: _ },
                    BasicBlockInner::Concrete { statements: mut ts, condjmp, next },
                ) => {
                    hs.append(&mut ts);
                    let whole = BasicBlock {
                        inner: BasicBlockInner::Concrete { statements: hs, condjmp, next },
                        is_public,
                    };
                    assert(whole@ == joined(hv, tv));
                    bbs.insert(h, whole);
                },
                (hi, ti) => {
                    proof {
                        assert(false);
                    }
                    bbs.insert(h, BasicBlock { inner: hi, is_public });
                },
            }
        },
        _ => {
            proof {
                assert(false);
            }
        },
    }
    let mut plan: BTreeMap<BbId, Option<BbId>> = BTreeMap::new();
    plan.insert(t, Some(h));
    labels.rewrite(&plan);
    proof {
        assert(plan@ == one_to(t, h));
        assert(views(bbs@) =~= cur.insert(h, joined(cur[h], cur[t])).remove(t));
    }
    true
}

/// `low` is the smallest id that is a block of `first` and none of `cur`,
/// if there is one.
pub open spec fn lowest_gone<S, C>(first: Blocks<S, C>, cur: Blocks<S, C>, low: Option<BbId>) -> bool {
    &&& forall|id: BbId|
        #[trigger] first.contains_key(id) && !cur.contains_key(id) ==> low is Some && low->0 <= id
    &&& low is Some ==> first.contains_key(low->0) && !cur.contains_key(low->0)
}

/// Gives every id that has a head its turn, in increasing order. Returns
/// the smallest id that was merged away, if any was.
fn merge_all<S, C>(
    bbs: &mut BTreeMap<BbId, ABB<S, C>>,
    labels: &mut LabelMap,
    sources: &BTreeMap<BbId, Option<BbId>>,
    Ghost(among): Ghost<Set<BbId>>,
) -> (r: Option<BbId>) where S: IntoTargetsIter<Target = BbId>, C: IntoTargetsIter<Target = BbId>
    requires
        among == live(views(old(bbs)@)),
        counted(sources@, views(old(bbs)@), among),
    ensures
        state_of(views(final(bbs)@), final(labels)@) == merge_all_of(
            views(old(bbs)@),
            old(labels)@,
        ),
        r is None ==> final(bbs)@ == old(bbs)@ && final(labels)@ == old(labels)@,
        lowest_gone(views(old(bbs)@), views(final(bbs)@), r),
        forall|id: BbId|
            views(final(bbs)@).contains_key(id) ==> views(old(bbs)@).contains_key(id),
{
    let ghost first = views(bbs@);
    let ghost st0 = state_of(first, labels@);
    let cand = keys_sorted(sources);
    let mut low: Option<BbId> = None;
    let ghost mut done: nat = 0;
    let mut i: usize = 0;
    while i < cand.len()
        invariant
            i <= cand.len(),
            first == views(old(bbs)@),
            among == live(first),
            st0 == state_of(first, old(labels)@),
            cand@.to_set() == sources@.dom(),
            ascending(cand@),
            counted(sources@, first, among),
            done <= usize::MAX + 1,
            i < cand.len() ==> done <= cand@[i as int],
            forall|j: int| 0 <= j < i ==> cand@[j] < done,
            state_of(views(bbs@), labels@) == merge_below(st0, first, among, done),
            low is None ==> bbs@ == old(bbs)@ && labels@ == old(labels)@,
            lowest_gone(first, views(bbs@), low),
            low is Some ==> low->0 < done,
            forall|id: BbId| views(bbs@).contains_key(id) ==> first.contains_key(id),
        decreases cand.len() - i,
    {
        let t = cand[i];
        assert(cand@.to_set().contains(t));
        proof {
            assert forall|k: BbId| done <= k < t implies head_of(first, among, k) is None by {
                lemma_counted_head(sources@, first, among, k);
                if sources@.contains_key(k) {
                    assert(cand@.to_set().contains(k));
                    let j = choose|j: int| 0 <= j < cand@.len() && cand@[j] == k;
                    if j > i {
                        assert(cand@[i as int] < cand@[j]);
                    }
                }
            }
            lemma_merge_gap(st0, first, among, done, t as nat);
            lemma_counted_head(sources@, first, among, t);
        }
        let head: Option<BbId> = match sources.get(&t) {
            Some(v) => *v,
            None => None,
        };
        if let Some(h) = head {
            let ghost before = views(bbs@);
            let ghost low0 = low;
            if try_merge(bbs, labels, t, h) {
                if low.is_none() {
                    low = Some(t);
                }
                proof {
                    assert forall|id: BbId|
                        first.contains_key(id) && !views(bbs@).contains_key(id) implies low
                        is Some && low->0 <= id by {
                        if id != t {
                            assert(!before.contains_key(id));
                            assert(low0 is Some && low0->0 <= id);
                        }
                    }
                }
            }
        }
        proof {
            done = (t + 1) as nat;
            if i + 1 < cand.len() {
                assert(cand@[i as int] < cand@[i + 1]);
            }
        }
        i += 1;
    }
    proof {
        assert forall|k: BbId| done <= k < usize::MAX + 1 implies head_of(first, among, k)
            is None by {
            lemma_counted_head(sources@, first, among, k);
            if sources@.contains_key(k) {
                assert(cand@.to_set().contains(k));
                let j = choose|j: int| 0 <= j < cand@.len() && cand@[j] == k;
            }
        }
        lemma_merge_gap(st0, first, among, done, (usize::MAX + 1) as nat);
    }
    low
}

/// Removes the blocks that are not live and draws up the plan for the
/// labels. Returns the plan and the smallest id removed.
fn sweep<S, C>(
    bbs: &mut BTreeMap<BbId, ABB<S, C>>,
    in_use: &BTreeSet<BbId>,
) -> (r: (BTreeMap<BbId, Option<BbId>>, Option<BbId>)) where
    S: IntoTargetsIter<Target = BbId>,
    C: IntoTargetsIter<Target = BbId>,

    ensures
        r.0@ == plan_of(views(old(bbs)@), in_use@),
        forall|id: BbId|
            #![trigger final(bbs)@.contains_key(id)]
            #![trigger old(bbs)@.contains_key(id)]
            final(bbs)@.contains_key(id) <==> old(bbs)@.contains_key(id) && in_use@.contains(id),
        forall|id: BbId|
            #[trigger] final(bbs)@.contains_key(id) ==> final(bbs)@[id] == old(bbs)@[id],
        lowest_gone(views(old(bbs)@), views(final(bbs)@), r.1),
        r.0@ == Map::<BbId, Option<BbId>>::empty() ==> final(bbs)@ == old(bbs)@,
{
    let ghost cur = views(bbs@);
    let ghost goal = plan_of(cur, in_use@);
    let keys = keys_sorted(bbs);
    let mut plan: BTreeMap<BbId, Option<BbId>> = BTreeMap::new();
    let mut low: Option<BbId> = None;
    let ghost mut done: nat = 0;
    let mut i: usize = 0;
    while i < keys.len()
        invariant
            i <= keys.len(),
            cur == views(old(bbs)@),
            goal == plan_of(cur, in_use@),
            keys@.to_set() == old(bbs)@.dom(),
            ascending(keys@),
            done <= usize::MAX + 1,
            i < keys.len() ==> done <= keys@[i as int],
            forall|j: int| 0 <= j < i ==> keys@[j] < done,
            forall|id: BbId|
                #![trigger plan@.contains_key(id)]
                #![trigger goal.contains_key(id)]
                plan@.contains_key(id) <==> goal.contains_key(id) && id < done,
            forall|id: BbId| #[trigger] plan@.contains_key(id) ==> plan@[id] == goal[id],
            forall|id: BbId|
                #![trigger bbs@.contains_key(id)]
                #![trigger old(bbs)@.contains_key(id)]
                bbs@.contains_key(id) <==> old(bbs)@.contains_key(id) && (in_use@.contains(id)
                    || id >= done),
            forall|id: BbId| #[trigger] bbs@.contains_key(id) ==> bbs@[id] == old(bbs)@[id],
            forall|id: BbId|
                #![trigger old(bbs)@.contains_key(id)]
                old(bbs)@.contains_key(id) && !bbs@.contains_key(id) ==> low is Some && low->0
                    <= id,
            low is Some ==> old(bbs)@.contains_key(low->0) && !bbs@.contains_key(low->0),
        decreases keys.len() - i,
    {
        let k = keys[i];
        assert(keys@.to_set().contains(k));
        proof {
            assert forall|id: BbId| done <= id < k implies !old(bbs)@.contains_key(id) by {
                if old(bbs)@.contains_key(id) {
                    assert(keys@.to_set().contains(id));
                    let j = choose|j: int| 0 <= j < keys@.len() && keys@[j] == id;
                    if j > i {
                        assert(keys@[i as int] < keys@[j]);
                    }
                }
            }
        }
        let ghost bbs0 = bbs@;
        let ghost low0 = low;
        let ghost plan0 = plan@;
        let ghost done0 = done;
        proof {
            lemma_views(old(bbs)@);
        }
        let dead = !in_use.contains(&k);
        assert(dead == !in_use@.contains(k));
        if dead {
            plan.insert(k, None);
            bbs.remove(&k);
            assert(bbs@ == bbs0.remove(k));
            if low.is_none() {
                low = Some(k);
            }
        }
        proof {
            assert forall|id: BbId|
                old(bbs)@.contains_key(id) && !bbs@.contains_key(id) implies low is Some
                && low->0 <= id by {
                if id != k {
                    assert(!bbs0.contains_key(id));
                    assert(low0 is Some && low0->0 <= id);
                } else if low0 is Some {
                    assert(!bbs0.contains_key(low0->0));
                }
            }
            done = (k + 1) as nat;
            if i + 1 < keys.len() {
                assert(keys@[i as int] < keys@[i + 1]);
            }
            assert forall|id: BbId|
                plan@.contains_key(id) <==> goal.contains_key(id) && id < done by {
                if id != k {
                    assert(plan@.contains_key(id) == plan0.contains_key(id));
                    assert(plan0.contains_key(id) <==> goal.contains_key(id) && id < done0);
                    if done0 <= id < k {
                        assert(!old(bbs)@.contains_key(id));
                    }
                } else {
                    assert(old(bbs)@.contains_key(k));
                }
            }
            assert forall|id: BbId| plan@.contains_key(id) implies plan@[id] == goal[id] by {
                if id != k {
                    assert(plan0.contains_key(id));
                }
            }
            assert forall|id: BbId|
                bbs@.contains_key(id) <==> old(bbs)@.contains_key(id) && (in_use@.contains(id)
                    || id >= done) by {
                assert(bbs0.contains_key(id) <==> old(bbs)@.contains_key(id) && (in_use@.contains(
                    id,
                ) || id >= done0));
                if done0 <= id < k {
                    assert(!old(bbs)@.contains_key(id));
                }
            }
        }
        i += 1;
    }
    proof {
        lemma_views(bbs@);
        lemma_views(old(bbs)@);
        assert forall|id: BbId| old(bbs)@.contains_key(id) implies id < done by {
            assert(keys@.to_set().contains(id));
            let j = choose|j: int| 0 <= j < keys@.len() && keys@[j] == id;
        }
        assert(plan@ =~= goal);
        if plan@ == Map::<BbId, Option<BbId>>::empty() {
            assert forall|id: BbId| old(bbs)@.contains_key(id) implies bbs@.contains_key(id) by {
                if !in_use@.contains(id) {
                    assert(goal.contains_key(id));
                }
            }
            assert(bbs@ =~= old(bbs)@);
        }
    }
    (plan, low)
}

impl<S, C> Arena<S, C> where
    S: IntoTargetsIter<Target = BbId>,
    C: IntoTargetsIter<Target = BbId>,
 {
    /// One optimizing pass. Returns whether anything changed; the caller
    /// calls again until nothing does.
    ///
    /// A block that is not public, is concrete, does not refer to itself
    /// and is referred to by one live block alone, and that only by the
    /// exit of a block without conditional jump, is merged into that
    /// block: its statements follow those of the other, its conditional
    /// jump and exit replace the other's, and its labels are bound to the
    /// other. The ids have their turn in increasing order, and a block
    /// whose head is gone by then waits for the next pass. A block that
    /// cannot be reached from a public block is removed, with the labels
    /// bound to it. No reference is rewritten.
    ///
    /// Every block that remains can be reached from a public block through
    /// the blocks that remain, and a label bound to a block that remains
    /// stays bound to it.
    pub fn optimize(&mut self) -> (r: bool)
        ensures
            optimized(
                old(self).blocks(),
                old(self).label_map(),
                old(self).hint(),
                final(self).blocks(),
                final(self).label_map(),
                final(self).hint(),
                r,
            ),
            !r ==> final(self).bbs_view() == old(self).bbs_view(),
            wf(old(self).blocks(), old(self).label_map()) ==> wf(
                final(self).blocks(),
                final(self).label_map(),
            ),
            forall|id: BbId| #[trigger]
                final(self).blocks().contains_key(id) ==> reachable(final(self).blocks(), id),
            forall|l: Seq<char>|
                #[trigger] old(self).label_map().contains_key(l) && final(self).blocks().contains_key(
                    old(self).label_map()[l],
                ) ==> final(self).label_map().contains_key(l) && final(self).label_map()[l] == old(
                    self,
                ).label_map()[l],
            forall|h: BbId, t: BbId| #[trigger]
                merges(old(self).blocks(), h, t) ==> r && merged_pair(
                    old(self).blocks(),
                    old(self).label_map(),
                    final(self).blocks(),
                    final(self).label_map(),
                    h,
                    t,
                ),
    {
        let ghost b0 = self.blocks();
        let ghost l0 = self.label_map();
        let (in_use, sources) = mark(&self.bbs);
        let ghost among = in_use@;
        let merged_low = merge_all(&mut self.bbs, &mut self.labels, &sources, Ghost(among));
        let ghost m = state_of(views(self.bbs@), self.labels@);
        let ghost raw = self.bbs@;
        let (plan, dead_low) = sweep(&mut self.bbs, &in_use);
        let ghost kept = self.bbs@;
        let modified = merged_low.is_some() || !is_empty_plan(&plan);
        proof {
            assert(m == merge_all_of(b0, l0));
            assert(modified == changes(b0, m.blocks, among)) by {
                if changes(b0, m.blocks, among) {
                    let id = choose|id: BbId|
                        #[trigger] b0.contains_key(id) && (!m.blocks.contains_key(id)
                            || !among.contains(id));
                    if m.blocks.contains_key(id) {
                        assert(plan@.contains_key(id));
                    }
                }
                if merged_low is Some {
                    assert(b0.contains_key(merged_low->0));
                }
                if plan@ != Map::<BbId, Option<BbId>>::empty() {
                    assert(exists|id: BbId| plan@.contains_key(id)) by {
                        if forall|id: BbId| !plan@.contains_key(id) {
                            assert(plan@ =~= Map::<BbId, Option<BbId>>::empty());
                        }
                    }
                    let id = choose|id: BbId| plan@.contains_key(id);
                    assert(m.blocks.contains_key(id));
                }
            }
        }
        if !modified {
            proof {
                assert(rewritten(m.labels, plan@) =~= m.labels);
                lemma_pass(b0, l0, old(self).hint(), self.blocks(), self.label_map(), self.hint(), false);
                if wf(b0, l0) {
                    law_optimize_keeps_sound(
                        b0,
                        l0,
                        old(self).hint(),
                        self.blocks(),
                        self.label_map(),
                        self.hint(),
                        false,
                    );
                }
            }
            return false;
        }
        self.labels.rewrite(&plan);
        let low = match (merged_low, dead_low) {
            (Some(a), Some(b)) => Some(
                if a < b {
                    a
                } else {
                    b
                },
            ),
            (Some(a), None) => Some(a),
            (None, b) => b,
        };
        if let Some(x) = low {
            if x < self.cache_ins_start {
                self.cache_ins_start = x;
            }
        }
        proof {
            let b1 = views(self.bbs@);
            lemma_views(self.bbs@);
            lemma_views(raw);
            assert forall|id: BbId|
                #![trigger b1.contains_key(id)]
                #![trigger m.blocks.contains_key(id)]
                b1.contains_key(id) <==> m.blocks.contains_key(id) && among.contains(id) by {
                assert(kept.contains_key(id) <==> raw.contains_key(id) && among.contains(id));
                assert(raw.contains_key(id) <==> m.blocks.contains_key(id));
            }
            assert forall|id: BbId| b1.contains_key(id) implies #[trigger] b1[id] == m.blocks[id] by {
                assert(kept.contains_key(id));
                assert(kept[id] == raw[id]);
            }
            assert forall|id: BbId| #[trigger] b0.contains_key(id) && !b1.contains_key(id) implies low
                is Some && low->0 <= id by {
                if m.blocks.contains_key(id) {
                    assert(views(raw).contains_key(id));
                    assert(!views(kept).contains_key(id));
                }
            }
            if low is Some {
                let x = low->0;
                if merged_low == Some(x) {
                    assert(!m.blocks.contains_key(x));
                    assert(!raw.contains_key(x));
                    assert(!kept.contains_key(x));
                } else {
                    assert(views(raw).contains_key(x));
                    assert(!views(kept).contains_key(x));
                    assert(m.blocks.contains_key(x));
                }
                assert(b0.contains_key(x) && !b1.contains_key(x));
            }
            lemma_pass(b0, l0, old(self).hint(), b1, self.label_map(), self.hint(), true);
            if wf(b0, l0) {
                law_optimize_keeps_sound(
                    b0,
                    l0,
                    old(self).hint(),
                    b1,
                    self.label_map(),
                    self.hint(),
                    true,
                );
            }
        }
        true
    }
}

/// Whether the plan changes nothing.
fn is_empty_plan(plan: &BTreeMap<BbId, Option<BbId>>) -> (r: bool)
    ensures
        r == (plan@ == Map::<BbId, Option<BbId>>::empty()),
{
    let n = plan.len();
    proof {
        broadcast use vstd::std_specs::btree::group_btree_axioms;
        assert(vstd::std_specs::btree::key_obeys_cmp_spec::<BbId>());
        if n == 0 {
            assert(plan@.dom().len() == 0);
            assert(plan@.dom() =~= Set::<BbId>::empty());
            assert(plan@ =~= Map::<BbId, Option<BbId>>::empty());
        }
    }
    n == 0
}

} // verus!
