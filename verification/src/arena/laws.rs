//! What holds of the optimizing pass, for every arena.

use super::optimize::{
    joined, merge_all_of, merge_below, merge_one, mergeable, merged_into, merged_pair, merges,
    one_to, optimized, plan_of, state_of, Merged,
};
use crate::bb::BlockView;
use crate::graph::{wf, Blocks, Labels};
use crate::jump::{lemma_seq_targets_add, opt_targets, seq_targets, IntoTargetsIter, Unconditional};
use crate::labels::planned;
use crate::reach::{
    head_of, hop, is_path, lemma_next_reachable, lemma_public_reachable, lemma_reachable_exists,
    live, reachable, refers, sole_source,
};
use crate::BbId;
use vstd::prelude::*;

verus! {

/// An element of a concatenation is an element of one of its parts.
pub proof fn lemma_contains_add<T>(a: Seq<T>, b: Seq<T>, x: T)
    ensures
        (a + b).contains(x) <==> a.contains(x) || b.contains(x),
{
    if (a + b).contains(x) {
        let i = choose|i: int| 0 <= i < (a + b).len() && (a + b)[i] == x;
        if i < a.len() {
            assert(a[i] == x);
        } else {
            assert(b[i - a.len()] == x);
        }
    }
    if a.contains(x) {
        let i = choose|i: int| 0 <= i < a.len() && a[i] == x;
        assert((a + b)[i] == x);
    }
    if b.contains(x) {
        let i = choose|i: int| 0 <= i < b.len() && b[i] == x;
        assert((a + b)[a.len() + i] == x);
    }
}

/// What a head refers to before a merge, and what it refers to after.
pub proof fn lemma_joined_targets<S, C>(
    h: BlockView<S, C, BbId>,
    t: BlockView<S, C, BbId>,
    to: BbId,
    x: BbId,
) where S: IntoTargetsIter<Target = BbId>, C: IntoTargetsIter<Target = BbId>
    requires
        h.inner is Concrete,
        h.inner->condjmp is None,
        h.inner->next == Unconditional::Jump(to),
        t.inner is Concrete,
    ensures
        h.targets().contains(x) <==> seq_targets(h.inner->statements).contains(x) || x == to,
        joined(h, t).targets().contains(x) <==> seq_targets(h.inner->statements).contains(x)
            || t.targets().contains(x),
{
    let hs = h.inner->statements;
    let ts = t.inner->statements;
    let tc = t.inner->condjmp;
    let tn = t.inner->next;
    let none = opt_targets(h.inner->condjmp);
    let exit = h.inner->next.targets();
    assert(exit =~= seq![to]);
    assert(exit[0] == to);
    lemma_contains_add(seq_targets(hs) + none, exit, x);
    lemma_contains_add(seq_targets(hs), none, x);
    lemma_seq_targets_add(hs, ts);
    lemma_contains_add(seq_targets(hs + ts) + opt_targets(tc), tn.targets(), x);
    lemma_contains_add(seq_targets(hs + ts), opt_targets(tc), x);
    lemma_contains_add(seq_targets(hs), seq_targets(ts), x);
    lemma_contains_add(seq_targets(ts) + opt_targets(tc), tn.targets(), x);
    lemma_contains_add(seq_targets(ts), opt_targets(tc), x);
}

/// Some live block of `first` that is no block of `cur` any more referred
/// to `x`.
pub open spec fn from_gone<S, C>(first: Blocks<S, C>, cur: Blocks<S, C>, x: BbId) -> bool where
    S: IntoTargetsIter<Target = BbId>,
    C: IntoTargetsIter<Target = BbId>,
 {
    exists|src: BbId|
        live(first).contains(src) && !cur.contains_key(src) && #[trigger] refers(first, src, x)
}

/// What holds of the blocks while they are merged: no block is new; a
/// block that changed is concrete and is as public as it was; every public
/// block is still there; and what a live block refers to, it referred to
/// before, or a live block that was merged away did.
pub open spec fn merging<S, C>(first: Blocks<S, C>, cur: Blocks<S, C>) -> bool where
    S: IntoTargetsIter<Target = BbId>,
    C: IntoTargetsIter<Target = BbId>,
 {
    &&& forall|id: BbId| #[trigger]
        cur.contains_key(id) ==> first.contains_key(id) && cur[id].is_public
            == first[id].is_public && (cur[id] == first[id] || cur[id].inner is Concrete)
    &&& forall|id: BbId|
        first.contains_key(id) && (#[trigger] first[id]).is_public ==> cur.contains_key(id)
    &&& forall|id: BbId, x: BbId|
        live(first).contains(id) && #[trigger] refers(cur, id, x) ==> refers(first, id, x)
            || from_gone(first, cur, x)
}

/// One merge keeps what holds while merging.
proof fn lemma_merging_step<S, C>(first: Blocks<S, C>, st: Merged<S, C>, t: BbId) where
    S: IntoTargetsIter<Target = BbId>,
    C: IntoTargetsIter<Target = BbId>,

    requires
        merging(first, st.blocks),
    ensures
        merging(first, merge_one(st, first, live(first), t).blocks),
        forall|id: BbId|
            merge_one(st, first, live(first), t).blocks.contains_key(id) ==> st.blocks.contains_key(
                id,
            ),
{
    let among = live(first);
    let cur = st.blocks;
    let next = merge_one(st, first, among, t);
    if next != st {
        let h = head_of(first, among, t)->0;
        assert(sole_source(first, among, t, h));
        assert(mergeable(cur, t, h));
        let now = next.blocks;
        assert(now == cur.insert(h, joined(cur[h], cur[t])).remove(t));
        assert(cur.contains_key(t));
        assert(first.contains_key(t));
        assert(cur[t].is_public == first[t].is_public);
        assert forall|id: BbId, x: BbId|
            among.contains(id) && #[trigger] refers(now, id, x) implies refers(first, id, x)
            || from_gone(first, now, x) by {
            if id != h {
                assert(refers(cur, id, x));
                if !refers(first, id, x) {
                    let src = choose|src: BbId|
                        among.contains(src) && !cur.contains_key(src) && #[trigger] refers(
                            first,
                            src,
                            x,
                        );
                    assert(!now.contains_key(src));
                }
            } else {
                lemma_joined_targets(cur[h], cur[t], t, x);
                if cur[h].targets().contains(x) {
                    assert(refers(cur, h, x));
                    if !refers(first, h, x) {
                        let src = choose|src: BbId|
                            among.contains(src) && !cur.contains_key(src) && #[trigger] refers(
                                first,
                                src,
                                x,
                            );
                        assert(!now.contains_key(src));
                    }
                } else {
                    assert(refers(cur, t, x));
                    assert(among.contains(t)) by {
                        assert(refers(first, h, t));
                        lemma_next_reachable(first, h, t);
                    }
                    if refers(first, t, x) {
                        assert(!now.contains_key(t));
                    } else {
                        let src = choose|src: BbId|
                            among.contains(src) && !cur.contains_key(src) && #[trigger] refers(
                                first,
                                src,
                                x,
                            );
                        assert(!now.contains_key(src));
                    }
                }
            }
        }
    }
}

/// What holds while merging holds after every id below `n` had its turn.
pub proof fn lemma_merging<S, C>(first: Blocks<S, C>, labels: Labels, n: nat) where
    S: IntoTargetsIter<Target = BbId>,
    C: IntoTargetsIter<Target = BbId>,

    ensures
        merging(first, merge_below(state_of(first, labels), first, live(first), n).blocks),
    decreases n,
{
    if n == 0 {
        assert(merging(first, first));
    } else {
        lemma_merging(first, labels, (n - 1) as nat);
        lemma_merging_step(
            first,
            merge_below(state_of(first, labels), first, live(first), (n - 1) as nat),
            (n - 1) as BbId,
        );
    }
}

/// What holds while the blocks of a sound arena are merged: what a live
/// block refers to is a live block that is still there; every label is
/// bound to a block; and a label that was bound to a block that is still
/// there is bound to it still.
pub open spec fn sound_merging<S, C>(first: Blocks<S, C>, labels: Labels, st: Merged<S, C>) -> bool where
    S: IntoTargetsIter<Target = BbId>,
    C: IntoTargetsIter<Target = BbId>,
 {
    &&& forall|id: BbId, x: BbId|
        live(first).contains(id) && #[trigger] refers(st.blocks, id, x) ==> st.blocks.contains_key(
            x,
        ) && live(first).contains(x)
    &&& forall|l: Seq<char>| #[trigger]
        st.labels.contains_key(l) ==> st.blocks.contains_key(st.labels[l])
    &&& forall|l: Seq<char>|
        #[trigger] labels.contains_key(l) && st.blocks.contains_key(labels[l])
            ==> st.labels.contains_key(l) && st.labels[l] == labels[l]
}

/// One merge keeps what holds while a sound arena is merged.
proof fn lemma_sound_step<S, C>(first: Blocks<S, C>, labels: Labels, st: Merged<S, C>, t: BbId) where
    S: IntoTargetsIter<Target = BbId>,
    C: IntoTargetsIter<Target = BbId>,

    requires
        merging(first, st.blocks),
        sound_merging(first, labels, st),
    ensures
        sound_merging(first, labels, merge_one(st, first, live(first), t)),
{
    let among = live(first);
    let cur = st.blocks;
    let next = merge_one(st, first, among, t);
    if next != st {
        let h = head_of(first, among, t)->0;
        assert(sole_source(first, among, t, h));
        assert(mergeable(cur, t, h));
        let now = next.blocks;
        assert(now == cur.insert(h, joined(cur[h], cur[t])).remove(t));
        assert(among.contains(t)) by {
            assert(refers(first, h, t));
            assert(first.contains_key(t));
            lemma_next_reachable(first, h, t);
        }
        assert forall|id: BbId, x: BbId|
            among.contains(id) && #[trigger] refers(now, id, x) implies now.contains_key(x)
            && among.contains(x) by {
            if id != h {
                assert(refers(cur, id, x));
                if x == t {
                    if !refers(first, id, t) {
                        assert(from_gone(first, cur, t));
                        let src = choose|src: BbId|
                            among.contains(src) && !cur.contains_key(src) && #[trigger] refers(
                                first,
                                src,
                                t,
                            );
                        assert(src == h);
                    }
                    assert(false);
                }
            } else {
                lemma_joined_targets(cur[h], cur[t], t, x);
                if seq_targets(cur[h].inner->statements).contains(x) {
                    assert(refers(cur, h, x));
                } else {
                    assert(refers(cur, t, x));
                }
            }
        }
        let plan = one_to(t, h);
        assert forall|l: Seq<char>| #[trigger]
            next.labels.contains_key(l) implies now.contains_key(next.labels[l]) by {
            assert(st.labels.contains_key(l));
            assert(cur.contains_key(st.labels[l]));
        }
        assert forall|l: Seq<char>|
            #[trigger] labels.contains_key(l) && now.contains_key(
                labels[l],
            ) implies next.labels.contains_key(l) && next.labels[l] == labels[l] by {
            assert(cur.contains_key(labels[l]));
            assert(st.labels.contains_key(l) && st.labels[l] == labels[l]);
            assert(planned(plan, st.labels[l]) == Some(labels[l]));
        }
    }
}

/// What holds while a sound arena is merged holds after every id below `n`
/// had its turn.
pub proof fn lemma_sound_merging<S, C>(first: Blocks<S, C>, labels: Labels, n: nat) where
    S: IntoTargetsIter<Target = BbId>,
    C: IntoTargetsIter<Target = BbId>,

    requires
        wf(first, labels),
    ensures
        sound_merging(
            first,
            labels,
            merge_below(state_of(first, labels), first, live(first), n),
        ),
    decreases n,
{
    let st0 = state_of(first, labels);
    if n == 0 {
        assert forall|id: BbId, x: BbId|
            live(first).contains(id) && #[trigger] refers(first, id, x) implies first.contains_key(
            x,
        ) && live(first).contains(x) by {
            lemma_reachable_exists(first, id);
            assert(first[id].targets().contains(x));
            lemma_next_reachable(first, id, x);
        }
    } else {
        lemma_sound_merging(first, labels, (n - 1) as nat);
        lemma_merging(first, labels, (n - 1) as nat);
        lemma_sound_step(
            first,
            labels,
            merge_below(st0, first, live(first), (n - 1) as nat),
            (n - 1) as BbId,
        );
    }
}

/// The pass keeps a sound arena sound: if every reference resolved, every
/// label was bound to a block and every placeholder had a label before the
/// pass, then so it is after it.
pub proof fn law_optimize_keeps_sound<S, C>(
    b0: Blocks<S, C>,
    l0: Labels,
    hint0: usize,
    b1: Blocks<S, C>,
    l1: Labels,
    hint1: usize,
    r: bool,
) where S: IntoTargetsIter<Target = BbId>, C: IntoTargetsIter<Target = BbId>
    requires
        wf(b0, l0),
        optimized(b0, l0, hint0, b1, l1, hint1, r),
    ensures
        wf(b1, l1),
{
    let among = live(b0);
    let m = merge_all_of(b0, l0);
    let plan = plan_of(m.blocks, among);
    lemma_merging(b0, l0, (usize::MAX + 1) as nat);
    lemma_sound_merging(b0, l0, (usize::MAX + 1) as nat);
    assert forall|from: BbId, to: BbId|
        b1.contains_key(from) && #[trigger] b1[from].targets().contains(to) implies to == from
        || b1.contains_key(to) by {
        assert(b1[from] == m.blocks[from]);
        assert(refers(m.blocks, from, to));
    }
    assert forall|l: Seq<char>| #[trigger] l1.contains_key(l) implies b1.contains_key(l1[l]) by {
        let id = m.labels[l];
        assert(m.labels.contains_key(l));
        assert(m.blocks.contains_key(id));
        assert(planned(plan, id) is Some);
        assert(!plan.contains_key(id));
    }
    assert forall|id: BbId|
        b1.contains_key(id) && (#[trigger] b1[id]).inner is Placeholder implies l1.contains_value(
        id,
    ) by {
        assert(b1[id] == m.blocks[id]);
        assert(m.blocks.contains_key(id));
        assert(m.blocks[id] == b0[id]);
        assert(b0.contains_key(id));
        assert(l0.contains_value(id));
        let l = choose|l: Seq<char>| l0.contains_key(l) && l0[l] == id;
        assert(l0.contains_key(l) && m.blocks.contains_key(l0[l]));
        assert(m.labels.contains_key(l) && m.labels[l] == id);
        assert(!plan.contains_key(id));
        assert(l1.contains_key(l) && l1[l] == id);
    }
}

/// Where every block is still there after the ids below `n` had their
/// turn, nothing was merged.
proof fn lemma_nothing_merged<S, C>(first: Blocks<S, C>, labels: Labels, n: nat) where
    S: IntoTargetsIter<Target = BbId>,
    C: IntoTargetsIter<Target = BbId>,

    requires
        forall|id: BbId| #[trigger]
            first.contains_key(id) ==> merge_below(
                state_of(first, labels),
                first,
                live(first),
                n,
            ).blocks.contains_key(id),
    ensures
        merge_below(state_of(first, labels), first, live(first), n) == state_of(first, labels),
    decreases n,
{
    let st0 = state_of(first, labels);
    if n > 0 {
        let among = live(first);
        let before = merge_below(st0, first, among, (n - 1) as nat);
        let t = (n - 1) as BbId;
        lemma_merging(first, labels, (n - 1) as nat);
        lemma_merging_step(first, before, t);
        assert forall|id: BbId| #[trigger] first.contains_key(id) implies before.blocks.contains_key(
            id,
        ) by {
            assert(merge_below(st0, first, among, n).blocks.contains_key(id));
        }
        lemma_nothing_merged(first, labels, (n - 1) as nat);
        if merge_one(st0, first, among, t) != st0 {
            let h = head_of(first, among, t)->0;
            assert(mergeable(first, t, h));
            assert(first.contains_key(t));
            assert(!merge_below(st0, first, among, n).blocks.contains_key(t));
        }
    }
}

/// A pass that reports no change leaves the arena as it was: the arena is
/// at a fixed point.
pub proof fn law_no_change_is_fixed_point<S, C>(
    b0: Blocks<S, C>,
    l0: Labels,
    hint0: usize,
    b1: Blocks<S, C>,
    l1: Labels,
    hint1: usize,
) where S: IntoTargetsIter<Target = BbId>, C: IntoTargetsIter<Target = BbId>
    requires
        optimized(b0, l0, hint0, b1, l1, hint1, false),
    ensures
        b1 == b0,
        l1 == l0,
        hint1 == hint0,
{
    let among = live(b0);
    let m = merge_all_of(b0, l0);
    let plan = plan_of(m.blocks, among);
    assert forall|id: BbId| #[trigger] b0.contains_key(id) implies m.blocks.contains_key(id)
        && among.contains(id) by {}
    lemma_nothing_merged(b0, l0, (usize::MAX + 1) as nat);
    assert(m == state_of(b0, l0));
    assert(plan =~= Map::<BbId, Option<BbId>>::empty());
    assert(b1 =~= b0);
    assert(l1 =~= l0);
}

/// A pass that reports a change removes a block and adds none. So the
/// passes that follow one another each leave fewer blocks, until one
/// reports no change.
pub proof fn law_change_shrinks<S, C>(
    b0: Blocks<S, C>,
    l0: Labels,
    hint0: usize,
    b1: Blocks<S, C>,
    l1: Labels,
    hint1: usize,
    r: bool,
) where S: IntoTargetsIter<Target = BbId>, C: IntoTargetsIter<Target = BbId>
    requires
        optimized(b0, l0, hint0, b1, l1, hint1, r),
    ensures
        b1.dom().subset_of(b0.dom()),
        r <==> exists|id: BbId| #[trigger] b0.contains_key(id) && !b1.contains_key(id),
        r && b0.dom().finite() ==> b1.dom().len() < b0.dom().len(),
{
    let among = live(b0);
    let m = merge_all_of(b0, l0);
    lemma_merging(b0, l0, (usize::MAX + 1) as nat);
    assert forall|id: BbId| b1.dom().contains(id) implies b0.dom().contains(id) by {
        assert(b1.contains_key(id));
        assert(m.blocks.contains_key(id));
    }
    if r {
        let gone = choose|id: BbId|
            #[trigger] b0.contains_key(id) && (!m.blocks.contains_key(id) || !among.contains(id));
        assert(b0.contains_key(gone) && !b1.contains_key(gone));
        if b0.dom().finite() {
            assert(b0.dom().contains(gone) && !b1.dom().contains(gone));
            assert(b1.dom().subset_of(b0.dom().remove(gone)));
            vstd::set_lib::lemma_len_subset(b1.dom(), b0.dom().remove(gone));
        }
    } else {
        law_no_change_is_fixed_point(b0, l0, hint0, b1, l1, hint1);
    }
}

/// Only blocks that could be reached from a public block, through the
/// references of the arena as it was, remain after the pass; and a block
/// that could not be reached does not remain.
pub proof fn law_kept_were_reachable<S, C>(
    b0: Blocks<S, C>,
    l0: Labels,
    hint0: usize,
    b1: Blocks<S, C>,
    l1: Labels,
    hint1: usize,
    r: bool,
    id: BbId,
) where S: IntoTargetsIter<Target = BbId>, C: IntoTargetsIter<Target = BbId>
    requires
        optimized(b0, l0, hint0, b1, l1, hint1, r),
        b1.contains_key(id),
    ensures
        b0.contains_key(id),
        reachable(b0, id),
{
    lemma_reachable_exists(b0, id);
}

/// After the id `t` had its turn and was merged into `h`, `h` stays as the
/// merge made it for as long as it is there, and `t` stays away.
proof fn lemma_merged_stays<S, C>(first: Blocks<S, C>, labels: Labels, t: BbId, h: BbId, n: nat) where
    S: IntoTargetsIter<Target = BbId>,
    C: IntoTargetsIter<Target = BbId>,

    requires
        t < n <= usize::MAX + 1,
        sole_source(first, live(first), t, h),
        mergeable(first, t, h),
        merge_below(state_of(first, labels), first, live(first), t as nat).blocks.contains_key(h),
        merge_below(state_of(first, labels), first, live(first), t as nat).blocks.contains_key(t),
        merge_below(state_of(first, labels), first, live(first), t as nat).blocks[h] == first[h],
        merge_below(state_of(first, labels), first, live(first), t as nat).blocks[t] == first[t],
    ensures
        !merge_below(state_of(first, labels), first, live(first), n).blocks.contains_key(t),
        merge_below(state_of(first, labels), first, live(first), n).blocks.contains_key(h)
            ==> merge_below(state_of(first, labels), first, live(first), n).blocks[h] == joined(
            first[h],
            first[t],
        ),
    decreases n,
{
    let st0 = state_of(first, labels);
    let among = live(first);
    let before = merge_below(st0, first, among, (n - 1) as nat);
    let k = (n - 1) as BbId;
    let after = merge_one(before, first, among, k);
    assert(after == merge_below(st0, first, among, n));
    lemma_merging(first, labels, (n - 1) as nat);
    lemma_merging_step(first, before, k);
    if n == t + 1 {
        assert(refers(first, h, t));
        assert(head_of(first, among, t) == Some(h)) by {
            let g = choose|g: BbId| sole_source(first, among, t, g);
            assert(refers(first, g, t));
        }
        assert(mergeable(before.blocks, t, h));
    } else {
        lemma_merged_stays(first, labels, t, h, (n - 1) as nat);
        if after != before {
            let g = head_of(first, among, k)->0;
            assert(sole_source(first, among, k, g));
            assert(mergeable(before.blocks, k, g));
            if g == h {
                assert(refers(first, h, k));
                lemma_joined_targets(first[h], first[t], t, k);
                lemma_contains_add(
                    seq_targets(first[h].inner->statements),
                    seq_targets(first[t].inner->statements),
                    k,
                );
                lemma_seq_targets_add(first[h].inner->statements, first[t].inner->statements);
                assert(false);
            }
        }
    }
}

/// While merging, `t` stays as it was until its turn, if no block with a
/// smaller id has it for its head.
proof fn lemma_tail_waits<S, C>(first: Blocks<S, C>, labels: Labels, t: BbId, n: nat) where
    S: IntoTargetsIter<Target = BbId>,
    C: IntoTargetsIter<Target = BbId>,

    requires
        n <= t,
        first.contains_key(t),
        forall|z: BbId| z < t ==> head_of(first, live(first), z) != Some(t),
    ensures
        merge_below(state_of(first, labels), first, live(first), n).blocks.contains_key(t),
        merge_below(state_of(first, labels), first, live(first), n).blocks[t] == first[t],
    decreases n,
{
    if n > 0 {
        lemma_tail_waits(first, labels, t, (n - 1) as nat);
    }
}

/// While merging, the head `h` of `t` stays as it was until the turn of
/// `t`, if it is public, has its own turn later or has no head.
proof fn lemma_head_waits<S, C>(first: Blocks<S, C>, labels: Labels, t: BbId, h: BbId, n: nat) where
    S: IntoTargetsIter<Target = BbId>,
    C: IntoTargetsIter<Target = BbId>,

    requires
        n <= t,
        first.contains_key(h),
        first[h].inner is Concrete,
        first[h].inner->next == Unconditional::Jump(t),
        first[h].is_public || t < h || head_of(first, live(first), h) is None,
    ensures
        merge_below(state_of(first, labels), first, live(first), n).blocks.contains_key(h),
        merge_below(state_of(first, labels), first, live(first), n).blocks[h] == first[h],
    decreases n,
{
    if n > 0 {
        lemma_head_waits(first, labels, t, h, (n - 1) as nat);
    }
}

/// While merging, a label stays bound to a block for as long as the block
/// is there.
proof fn lemma_label_stays<S, C>(
    first: Blocks<S, C>,
    labels: Labels,
    a: nat,
    b: nat,
    l: Seq<char>,
    x: BbId,
) where S: IntoTargetsIter<Target = BbId>, C: IntoTargetsIter<Target = BbId>
    requires
        a <= b,
        merge_below(state_of(first, labels), first, live(first), a).labels.contains_key(l),
        merge_below(state_of(first, labels), first, live(first), a).labels[l] == x,
        merge_below(state_of(first, labels), first, live(first), b).blocks.contains_key(x),
    ensures
        merge_below(state_of(first, labels), first, live(first), b).labels.contains_key(l),
        merge_below(state_of(first, labels), first, live(first), b).labels[l] == x,
    decreases b - a,
{
    if a < b {
        let among = live(first);
        let before = merge_below(state_of(first, labels), first, among, (b - 1) as nat);
        let t = (b - 1) as BbId;
        lemma_merging(first, labels, (b - 1) as nat);
        lemma_merging_step(first, before, t);
        lemma_label_stays(first, labels, a, (b - 1) as nat, l, x);
        if merge_one(before, first, among, t) != before {
            let h = head_of(first, among, t)->0;
            assert(planned(one_to(t, h), x) == Some(x));
        }
    }
}

/// A label that is bound to a block that remains after the pass is bound
/// to it as before.
pub proof fn law_labels_stay<S, C>(
    b0: Blocks<S, C>,
    l0: Labels,
    hint0: usize,
    b1: Blocks<S, C>,
    l1: Labels,
    hint1: usize,
    r: bool,
    l: Seq<char>,
) where S: IntoTargetsIter<Target = BbId>, C: IntoTargetsIter<Target = BbId>
    requires
        optimized(b0, l0, hint0, b1, l1, hint1, r),
        l0.contains_key(l),
        b1.contains_key(l0[l]),
    ensures
        l1.contains_key(l),
        l1[l] == l0[l],
{
    let m = merge_all_of(b0, l0);
    lemma_label_stays(b0, l0, 0, (usize::MAX + 1) as nat, l, l0[l]);
    assert(planned(plan_of(m.blocks, live(b0)), l0[l]) == Some(l0[l]));
}

/// Merge correctness. Let `h` be the one live block that refers to `t`,
/// and let the two be fit to merge: `h` is concrete, has no conditional
/// jump, exits by a jump to `t` and refers to `t` nowhere else, and `t` is
/// not public, is concrete and does not refer to itself. Let `h` be
/// public, or have a greater id than `t`, or not be referred to by one
/// live block alone; and let no block with a smaller id than `t` be
/// referred to by `t` alone. Then the pass reports a change and no block
/// `t` remains; `h` remains if it is public; and where `h` remains, it
/// holds exactly its own statements followed by those of `t`, in order,
/// with the conditional jump and the exit of `t`, and every label that was
/// bound to `t` is bound to `h`.
pub proof fn law_merge<S, C>(
    b0: Blocks<S, C>,
    l0: Labels,
    hint0: usize,
    b1: Blocks<S, C>,
    l1: Labels,
    hint1: usize,
    r: bool,
    h: BbId,
    t: BbId,
) where S: IntoTargetsIter<Target = BbId>, C: IntoTargetsIter<Target = BbId>
    requires
        optimized(b0, l0, hint0, b1, l1, hint1, r),
        merges(b0, h, t),
    ensures
        r,
        merged_pair(b0, l0, b1, l1, h, t),
{
    let among = live(b0);
    let st0 = state_of(b0, l0);
    let m = merge_all_of(b0, l0);
    let top = (usize::MAX + 1) as nat;
    lemma_tail_waits(b0, l0, t, t as nat);
    lemma_head_waits(b0, l0, t, h, t as nat);
    lemma_merged_stays(b0, l0, t, h, top);
    lemma_merging(b0, l0, top);
    assert(b0.contains_key(t));
    if b1.contains_key(h) {
        assert forall|l: Seq<char>| l0.contains_key(l) && l0[l] == t implies #[trigger] l1.contains_key(
            l,
        ) && l1[l] == h by {
            lemma_label_stays(b0, l0, 0, t as nat, l, t);
            let before = merge_below(st0, b0, among, t as nat);
            let after = merge_below(st0, b0, among, (t + 1) as nat);
            assert(head_of(b0, among, t) == Some(h)) by {
                let g = choose|g: BbId| sole_source(b0, among, t, g);
                assert(refers(b0, g, t));
                assert(refers(b0, h, t));
            }
            assert(mergeable(before.blocks, t, h));
            assert(after == merged_into(before, t, h));
            assert(planned(one_to(t, h), t) == Some(h));
            assert(after.labels.contains_key(l) && after.labels[l] == h);
            assert(m.blocks.contains_key(h));
            lemma_label_stays(b0, l0, (t + 1) as nat, top, l, h);
            assert(planned(plan_of(m.blocks, among), h) == Some(h));
        }
    }
    if b0[h].is_public {
        lemma_public_reachable(b0, h);
    }
}

/// While merging, every block of a path is live.
proof fn lemma_path_live<S, C>(first: Blocks<S, C>, cur: Blocks<S, C>, path: Seq<BbId>, k: int) where
    S: IntoTargetsIter<Target = BbId>,
    C: IntoTargetsIter<Target = BbId>,

    requires
        merging(first, cur),
        is_path(cur, path),
        0 <= k < path.len(),
    ensures
        live(first).contains(path[k]),
        cur.contains_key(path[k]),
    decreases k,
{
    if k == 0 {
        assert(cur.contains_key(path[0]));
        lemma_public_reachable(first, path[0]);
    } else {
        lemma_path_live(first, cur, path, k - 1);
        assert(hop(cur, path, k - 1));
        let p = path[k - 1];
        let x = path[k];
        assert(refers(cur, p, x));
        assert(first.contains_key(x));
        if refers(first, p, x) {
            lemma_next_reachable(first, p, x);
        } else {
            assert(from_gone(first, cur, x));
            let src = choose|src: BbId|
                live(first).contains(src) && !cur.contains_key(src) && #[trigger] refers(
                    first,
                    src,
                    x,
                );
            lemma_next_reachable(first, src, x);
        }
    }
}

/// What a path of the blocks before a merge reaches, other than the block
/// merged away, can be reached after it.
proof fn lemma_path_after_merge<S, C>(
    first: Blocks<S, C>,
    st: Merged<S, C>,
    t: BbId,
    h: BbId,
    path: Seq<BbId>,
    k: int,
) where S: IntoTargetsIter<Target = BbId>, C: IntoTargetsIter<Target = BbId>
    requires
        merging(first, st.blocks),
        sole_source(first, live(first), t, h),
        mergeable(st.blocks, t, h),
        is_path(st.blocks, path),
        0 <= k < path.len(),
        path[k] != t,
    ensures
        reachable(merged_into(st, t, h).blocks, path[k]),
    decreases k,
{
    let among = live(first);
    let cur = st.blocks;
    let now = merged_into(st, t, h).blocks;
    assert(now == cur.insert(h, joined(cur[h], cur[t])).remove(t));
    lemma_path_live(first, cur, path, k);
    let x = path[k];
    if k == 0 {
        lemma_public_reachable(now, x);
    } else {
        assert(hop(cur, path, k - 1));
        let p = path[k - 1];
        lemma_joined_targets(cur[h], cur[t], t, x);
        if p != t {
            lemma_path_after_merge(first, st, t, h, path, k - 1);
            assert(refers(now, p, x));
            lemma_next_reachable(now, p, x);
        } else {
            assert(k - 1 > 0);
            assert(hop(cur, path, k - 2));
            let q = path[k - 2];
            lemma_path_live(first, cur, path, k - 2);
            assert(refers(cur, q, t));
            if !refers(first, q, t) {
                assert(from_gone(first, cur, t));
                let src = choose|src: BbId|
                    among.contains(src) && !cur.contains_key(src) && #[trigger] refers(
                        first,
                        src,
                        t,
                    );
                assert(src == h);
                assert(false);
            }
            assert(q == h);
            lemma_path_after_merge(first, st, t, h, path, k - 2);
            assert(refers(now, h, x));
            lemma_next_reachable(now, h, x);
        }
    }
}

/// While merging, every live block that is still there can be reached
/// from a public block through the blocks as they stand.
proof fn lemma_still_reachable<S, C>(first: Blocks<S, C>, labels: Labels, n: nat, id: BbId) where
    S: IntoTargetsIter<Target = BbId>,
    C: IntoTargetsIter<Target = BbId>,

    requires
        live(first).contains(id),
        merge_below(state_of(first, labels), first, live(first), n).blocks.contains_key(id),
    ensures
        reachable(merge_below(state_of(first, labels), first, live(first), n).blocks, id),
    decreases n,
{
    if n > 0 {
        let among = live(first);
        let before = merge_below(state_of(first, labels), first, among, (n - 1) as nat);
        let t = (n - 1) as BbId;
        let after = merge_one(before, first, among, t);
        lemma_merging(first, labels, (n - 1) as nat);
        lemma_merging_step(first, before, t);
        lemma_still_reachable(first, labels, (n - 1) as nat, id);
        if after != before {
            let h = head_of(first, among, t)->0;
            assert(sole_source(first, among, t, h));
            let path = choose|path: Seq<BbId>| #[trigger]
                is_path(before.blocks, path) && path.last() == id;
            lemma_path_after_merge(first, before, t, h, path, path.len() - 1);
        }
    }
}

/// Reachability after the pass. Every block that remains after the pass
/// can be reached from a public block through the references of the blocks
/// that remain.
pub proof fn law_kept_are_reachable<S, C>(
    b0: Blocks<S, C>,
    l0: Labels,
    hint0: usize,
    b1: Blocks<S, C>,
    l1: Labels,
    hint1: usize,
    r: bool,
    id: BbId,
) where S: IntoTargetsIter<Target = BbId>, C: IntoTargetsIter<Target = BbId>
    requires
        optimized(b0, l0, hint0, b1, l1, hint1, r),
        b1.contains_key(id),
    ensures
        reachable(b1, id),
{
    let m = merge_all_of(b0, l0);
    let top = (usize::MAX + 1) as nat;
    lemma_still_reachable(b0, l0, top, id);
    lemma_merging(b0, l0, top);
    let path = choose|path: Seq<BbId>| #[trigger] is_path(m.blocks, path) && path.last() == id;
    assert forall|k: int| 0 <= k < path.len() implies b1.contains_key(#[trigger] path[k]) by {
        lemma_path_live(b0, m.blocks, path, k);
    }
    assert forall|i: int| 0 <= i < path.len() - 1 implies #[trigger] hop(b1, path, i) by {
        assert(hop(m.blocks, path, i));
        assert(b1.contains_key(path[i]) && b1.contains_key(path[i + 1]));
        assert(b1[path[i]] == m.blocks[path[i]]);
    }
    assert(b1.contains_key(path[0]));
    assert(b1[path[0]] == m.blocks[path[0]]);
    assert(is_path(b1, path));
}

/// What holds after every pass: every block that remains can be reached;
/// a label bound to a block that remains is bound to it as before; and
/// every pair that the pass merges is merged.
pub proof fn lemma_pass<S, C>(
    b0: Blocks<S, C>,
    l0: Labels,
    hint0: usize,
    b1: Blocks<S, C>,
    l1: Labels,
    hint1: usize,
    r: bool,
) where S: IntoTargetsIter<Target = BbId>, C: IntoTargetsIter<Target = BbId>
    requires
        optimized(b0, l0, hint0, b1, l1, hint1, r),
    ensures
        forall|id: BbId| #[trigger] b1.contains_key(id) ==> reachable(b1, id),
        forall|l: Seq<char>|
            #[trigger] l0.contains_key(l) && b1.contains_key(l0[l]) ==> l1.contains_key(l) && l1[l]
                == l0[l],
        forall|h: BbId, t: BbId| #[trigger]
            merges(b0, h, t) ==> r && merged_pair(b0, l0, b1, l1, h, t),
{
    assert forall|id: BbId| #[trigger] b1.contains_key(id) implies reachable(b1, id) by {
        law_kept_are_reachable(b0, l0, hint0, b1, l1, hint1, r, id);
    }
    assert forall|l: Seq<char>| #[trigger]
        l0.contains_key(l) && b1.contains_key(l0[l]) implies l1.contains_key(l) && l1[l]
        == l0[l] by {
        law_labels_stay(b0, l0, hint0, b1, l1, hint1, r, l);
    }
    assert forall|h: BbId, t: BbId| #[trigger] merges(b0, h, t) implies r && merged_pair(
        b0,
        l0,
        b1,
        l1,
        h,
        t,
    ) by {
        law_merge(b0, l0, hint0, b1, l1, hint1, r, h, t);
    }
}

} // verus!
