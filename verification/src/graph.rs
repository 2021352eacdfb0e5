//! The integrity rules of an arena, stated over the mathematical views of
//! its blocks and labels.

use crate::bb::BlockView;
use crate::jump::IntoTargetsIter;
use crate::BbId;
use vstd::prelude::*;

verus! {

/// The blocks of an arena as a mathematical map.
pub type Blocks<S, C> = Map<BbId, BlockView<S, C, BbId>>;

/// The labels of an arena as a mathematical map.
pub type Labels = Map<Seq<char>, BbId>;

/// A block with id `from`, were it to hold the ids `targets`, would refer to
/// `to`, which is neither itself nor a block of `blocks`.
pub open spec fn dangles<S, C>(blocks: Blocks<S, C>, from: BbId, targets: Seq<BbId>, to: BbId) -> bool {
    targets.contains(to) && to != from && !blocks.contains_key(to)
}

/// The block `from` refers to `to`, which is neither itself nor a block.
pub open spec fn dangling<S, C>(blocks: Blocks<S, C>, from: BbId, to: BbId) -> bool where
    S: IntoTargetsIter<Target = BbId>,
    C: IntoTargetsIter<Target = BbId>,
 {
    blocks.contains_key(from) && dangles(blocks, from, blocks[from].targets(), to)
}

/// The block `id` is a placeholder that no label is bound to.
pub open spec fn orphan<S, C>(blocks: Blocks<S, C>, labels: Labels, id: BbId) -> bool {
    blocks.contains_key(id) && blocks[id].inner is Placeholder && !labels.contains_value(id)
}

/// Some label is bound to `id`, which is no block.
pub open spec fn stray<S, C>(blocks: Blocks<S, C>, labels: Labels, id: BbId) -> bool {
    labels.contains_value(id) && !blocks.contains_key(id)
}

/// Whether the pair `p` breaks the integrity of the arena: a dangling
/// reference `(from, to)`, or `(id, id)` for an orphan placeholder or for
/// the missing target of a label.
pub open spec fn offends<S, C>(blocks: Blocks<S, C>, labels: Labels, p: (BbId, BbId)) -> bool where
    S: IntoTargetsIter<Target = BbId>,
    C: IntoTargetsIter<Target = BbId>,
 {
    ||| dangling(blocks, p.0, p.1)
    ||| p.0 == p.1 && orphan(blocks, labels, p.0)
    ||| p.0 == p.1 && stray(blocks, labels, p.0)
}

/// All pairs that break the integrity of the arena.
pub open spec fn offending<S, C>(blocks: Blocks<S, C>, labels: Labels) -> Set<(BbId, BbId)> where
    S: IntoTargetsIter<Target = BbId>,
    C: IntoTargetsIter<Target = BbId>,
 {
    Set::new(|p: (BbId, BbId)| offends(blocks, labels, p))
}

/// The integrity of an arena: every id that a block refers to is the
/// block's own or that of another block; every label is bound to a block;
/// every placeholder has a label.
pub open spec fn wf<S, C>(blocks: Blocks<S, C>, labels: Labels) -> bool where
    S: IntoTargetsIter<Target = BbId>,
    C: IntoTargetsIter<Target = BbId>,
 {
    &&& forall|from: BbId, to: BbId|
        blocks.contains_key(from) && #[trigger] blocks[from].targets().contains(to) ==> to == from
            || blocks.contains_key(to)
    &&& forall|l: Seq<char>| #[trigger] labels.contains_key(l) ==> blocks.contains_key(labels[l])
    &&& forall|id: BbId|
        blocks.contains_key(id) && (#[trigger] blocks[id]).inner is Placeholder
            ==> labels.contains_value(id)
}

/// An arena is sound exactly when no pair offends.
pub proof fn lemma_wf_offending<S, C>(blocks: Blocks<S, C>, labels: Labels) where
    S: IntoTargetsIter<Target = BbId>,
    C: IntoTargetsIter<Target = BbId>,

    ensures
        wf(blocks, labels) <==> offending(blocks, labels) == Set::<(BbId, BbId)>::empty(),
{
    let off = offending(blocks, labels);
    if wf(blocks, labels) {
        assert forall|p: (BbId, BbId)| !off.contains(p) by {
            if p.0 == p.1 && stray(blocks, labels, p.0) {
                let l = choose|l: Seq<char>| labels.contains_key(l) && labels[l] == p.0;
                assert(labels.contains_key(l));
            }
        }
        assert(off =~= Set::<(BbId, BbId)>::empty());
    }
    if off == Set::<(BbId, BbId)>::empty() {
        assert forall|from: BbId, to: BbId|
            blocks.contains_key(from) && #[trigger] blocks[from].targets().contains(
                to,
            ) implies to == from || blocks.contains_key(to) by {
            assert(!off.contains((from, to)));
        }
        assert forall|l: Seq<char>| #[trigger] labels.contains_key(l) implies blocks.contains_key(
            labels[l],
        ) by {
            assert(!off.contains((labels[l], labels[l])));
        }
        assert forall|id: BbId|
            blocks.contains_key(id) && (#[trigger] blocks[id]).inner
                is Placeholder implies labels.contains_value(id) by {
            assert(!off.contains((id, id)));
        }
    }
}

/// The order of pairs of ids: by the first, then by the second.
pub open spec fn pair_lt(a: (BbId, BbId), b: (BbId, BbId)) -> bool {
    a.0 < b.0 || (a.0 == b.0 && a.1 < b.1)
}

/// A sequence of pairs in strictly increasing order.
pub open spec fn pairs_ascending(s: Seq<(BbId, BbId)>) -> bool {
    forall|i: int, j: int| 0 <= i < j < s.len() ==> pair_lt(s[i], s[j])
}

/// The dangling references of a block with id `from` that holds the ids
/// `targets`: one pair for each occurrence, in the order of `targets`.
pub open spec fn dangling_pairs<S, C>(blocks: Blocks<S, C>, from: BbId, targets: Seq<BbId>) -> Seq<
    (BbId, BbId),
>
    decreases targets.len(),
{
    if targets.len() == 0 {
        Seq::empty()
    } else {
        let rest = dangling_pairs(blocks, from, targets.drop_last());
        let to = targets.last();
        if to != from && !blocks.contains_key(to) {
            rest.push((from, to))
        } else {
            rest
        }
    }
}

/// `dangling_pairs` holds exactly the pairs from `from` to an id that
/// dangles.
pub proof fn lemma_dangling_pairs<S, C>(blocks: Blocks<S, C>, from: BbId, targets: Seq<BbId>)
    ensures
        forall|p: (BbId, BbId)| #[trigger]
            dangling_pairs(blocks, from, targets).contains(p) <==> p.0 == from && dangles(
                blocks,
                from,
                targets,
                p.1,
            ),
    decreases targets.len(),
{
    let all = dangling_pairs(blocks, from, targets);
    if targets.len() == 0 {
    } else {
        let front = targets.drop_last();
        let rest = dangling_pairs(blocks, from, front);
        let to = targets.last();
        lemma_dangling_pairs(blocks, from, front);
        assert forall|p: (BbId, BbId)| #[trigger]
            all.contains(p) <==> p.0 == from && dangles(blocks, from, targets, p.1) by {
            if all.contains(p) {
                let i = choose|i: int| 0 <= i < all.len() && all[i] == p;
                if i < rest.len() {
                    assert(rest[i] == p);
                    assert(rest.contains(p));
                    let k = choose|k: int| 0 <= k < front.len() && front[k] == p.1;
                    assert(targets[k] == p.1);
                } else {
                    assert(targets[targets.len() - 1] == p.1);
                }
            }
            if p.0 == from && dangles(blocks, from, targets, p.1) {
                let k = choose|k: int| 0 <= k < targets.len() && targets[k] == p.1;
                if k < front.len() {
                    assert(front[k] == p.1);
                    assert(rest.contains(p));
                    let i = choose|i: int| 0 <= i < rest.len() && rest[i] == p;
                    assert(all[i] == p);
                } else {
                    assert(all[all.len() - 1] == p);
                }
            }
        }
    }
}

/// The dangling references of all blocks with an id below `n`, block by
/// block in increasing order of the ids.
pub open spec fn dangling_below<S, C>(blocks: Blocks<S, C>, n: nat) -> Seq<(BbId, BbId)> where
    S: IntoTargetsIter<Target = BbId>,
    C: IntoTargetsIter<Target = BbId>,

    decreases n,
{
    if n == 0 {
        Seq::empty()
    } else {
        let id = (n - 1) as BbId;
        let rest = dangling_below(blocks, (n - 1) as nat);
        if blocks.contains_key(id) {
            rest + dangling_pairs(blocks, id, blocks[id].targets())
        } else {
            rest
        }
    }
}

/// The dangling references of all blocks, block by block in increasing
/// order of the ids.
pub open spec fn all_dangling<S, C>(blocks: Blocks<S, C>) -> Seq<(BbId, BbId)> where
    S: IntoTargetsIter<Target = BbId>,
    C: IntoTargetsIter<Target = BbId>,
 {
    dangling_below(blocks, (usize::MAX + 1) as nat)
}

/// Ids that are no blocks add nothing to the dangling references.
pub proof fn lemma_dangling_gap<S, C>(blocks: Blocks<S, C>, a: nat, b: nat) where
    S: IntoTargetsIter<Target = BbId>,
    C: IntoTargetsIter<Target = BbId>,

    requires
        a <= b <= usize::MAX + 1,
        forall|k: BbId| a <= k < b ==> !blocks.contains_key(k),
    ensures
        dangling_below(blocks, b) == dangling_below(blocks, a),
    decreases b - a,
{
    if a < b {
        lemma_dangling_gap(blocks, a, (b - 1) as nat);
        assert(!blocks.contains_key((b - 1) as BbId));
    }
}

/// `dangling_below` holds exactly the dangling references of the blocks
/// below `n`.
pub proof fn lemma_dangling_below<S, C>(blocks: Blocks<S, C>, n: nat) where
    S: IntoTargetsIter<Target = BbId>,
    C: IntoTargetsIter<Target = BbId>,

    requires
        n <= usize::MAX + 1,
    ensures
        forall|p: (BbId, BbId)| #[trigger]
            dangling_below(blocks, n).contains(p) <==> p.0 < n && dangling(blocks, p.0, p.1),
    decreases n,
{
    if n > 0 {
        let id = (n - 1) as BbId;
        let rest = dangling_below(blocks, (n - 1) as nat);
        lemma_dangling_below(blocks, (n - 1) as nat);
        let all = dangling_below(blocks, n);
        if blocks.contains_key(id) {
            let own = dangling_pairs(blocks, id, blocks[id].targets());
            lemma_dangling_pairs(blocks, id, blocks[id].targets());
            assert forall|p: (BbId, BbId)| #[trigger]
                all.contains(p) <==> p.0 < n && dangling(blocks, p.0, p.1) by {
                if all.contains(p) {
                    let i = choose|i: int| 0 <= i < all.len() && all[i] == p;
                    if i < rest.len() {
                        assert(rest[i] == p);
                        assert(rest.contains(p));
                    } else {
                        assert(own[i - rest.len()] == p);
                        assert(own.contains(p));
                    }
                }
                if p.0 < n && dangling(blocks, p.0, p.1) {
                    if p.0 == id {
                        assert(own.contains(p));
                        let i = choose|i: int| 0 <= i < own.len() && own[i] == p;
                        assert(all[rest.len() + i] == p);
                    } else {
                        assert(rest.contains(p));
                        let i = choose|i: int| 0 <= i < rest.len() && rest[i] == p;
                        assert(all[i] == p);
                    }
                }
            }
        }
    }
}

/// `n` is the smallest id from `hint` on that is no block.
pub open spec fn is_first_free<S, C>(blocks: Blocks<S, C>, hint: usize, n: BbId) -> bool {
    &&& hint <= n < usize::MAX
    &&& !blocks.contains_key(n)
    &&& n == hint || blocks.contains_key(hint)
    &&& forall|k: BbId| hint <= k < n ==> #[trigger] blocks.contains_key(k)
}

/// Every id from `hint` on that a block may have is one.
pub open spec fn none_free<S, C>(blocks: Blocks<S, C>, hint: usize) -> bool {
    forall|k: BbId| hint <= k < usize::MAX ==> #[trigger] blocks.contains_key(k)
}

/// The dangling references of a block with id `from` that holds the ids
/// `targets`, as a set.
pub open spec fn rejected<S, C>(blocks: Blocks<S, C>, from: BbId, targets: Seq<BbId>) -> Set<
    (BbId, BbId),
> {
    Set::new(|p: (BbId, BbId)| p.0 == from && dangles(blocks, from, targets, p.1))
}

/// No block refers to `id`, and no label is bound to it.
pub open spec fn unreferenced<S, C>(blocks: Blocks<S, C>, labels: Labels, id: BbId) -> bool where
    S: IntoTargetsIter<Target = BbId>,
    C: IntoTargetsIter<Target = BbId>,
 {
    &&& forall|n: BbId|
        blocks.contains_key(n) && n != id ==> !(#[trigger] blocks[n]).targets().contains(id)
    &&& !labels.contains_value(id)
}

/// A concrete block whose references resolve, added under a free id, keeps
/// a sound arena sound.
pub proof fn lemma_push_keeps_sound<S, C>(
    blocks: Blocks<S, C>,
    labels: Labels,
    n: BbId,
    b: BlockView<S, C, BbId>,
) where S: IntoTargetsIter<Target = BbId>, C: IntoTargetsIter<Target = BbId>
    requires
        wf(blocks, labels),
        !blocks.contains_key(n),
        b.inner is Concrete,
        rejected(blocks, n, b.targets()) == Set::<(BbId, BbId)>::empty(),
    ensures
        wf(blocks.insert(n, b), labels),
{
    let now = blocks.insert(n, b);
    assert forall|from: BbId, to: BbId|
        now.contains_key(from) && #[trigger] now[from].targets().contains(to) implies to == from
        || now.contains_key(to) by {
        if from == n {
            if to != n && !blocks.contains_key(to) {
                assert(rejected(blocks, n, b.targets()).contains((n, to)));
            }
        } else {
            assert(blocks[from].targets().contains(to));
        }
    }
    assert forall|id: BbId|
        now.contains_key(id) && (#[trigger] now[id]).inner
            is Placeholder implies labels.contains_value(id) by {
        assert(blocks.contains_key(id) && blocks[id].inner is Placeholder);
    }
}

/// Removing a block to which nothing refers, with its labels, keeps a
/// sound arena sound.
pub proof fn lemma_remove_keeps_sound<S, C>(blocks: Blocks<S, C>, labels: Labels, id: BbId) where
    S: IntoTargetsIter<Target = BbId>,
    C: IntoTargetsIter<Target = BbId>,

    requires
        wf(blocks, labels),
        all_dangling(blocks.remove(id)).len() == 0,
    ensures
        wf(
            blocks.remove(id),
            labels.remove_keys(Set::new(|l: Seq<char>| labels.contains_key(l) && labels[l] == id)),
        ),
{
    let rest = blocks.remove(id);
    let kept = labels.remove_keys(
        Set::new(|l: Seq<char>| labels.contains_key(l) && labels[l] == id),
    );
    lemma_dangling_below(rest, (usize::MAX + 1) as nat);
    assert forall|from: BbId, to: BbId|
        rest.contains_key(from) && #[trigger] rest[from].targets().contains(to) implies to == from
        || rest.contains_key(to) by {
        if to != from && !rest.contains_key(to) {
            assert(dangling(rest, from, to));
            assert(all_dangling(rest).contains((from, to)));
        }
    }
    assert forall|l: Seq<char>| #[trigger] kept.contains_key(l) implies rest.contains_key(
        kept[l],
    ) by {
        assert(labels.contains_key(l));
    }
    assert forall|x: BbId|
        rest.contains_key(x) && (#[trigger] rest[x]).inner is Placeholder implies kept.contains_value(
        x,
    ) by {
        assert(blocks.contains_key(x) && blocks[x].inner is Placeholder);
        let l = choose|l: Seq<char>| labels.contains_key(l) && labels[l] == x;
        assert(kept.contains_key(l) && kept[l] == x);
    }
}

/// Binding a label to a block keeps a sound arena sound, unless the label
/// was the last of a placeholder.
pub proof fn law_bind_keeps_sound<S, C>(
    blocks: Blocks<S, C>,
    labels: Labels,
    label: Seq<char>,
    target: BbId,
) where S: IntoTargetsIter<Target = BbId>, C: IntoTargetsIter<Target = BbId>
    requires
        wf(blocks, labels),
        blocks.contains_key(target),
        labels.contains_key(label) ==> !orphan(
            blocks,
            labels.insert(label, target),
            labels[label],
        ),
    ensures
        wf(blocks, labels.insert(label, target)),
{
    let now = labels.insert(label, target);
    assert forall|l: Seq<char>| #[trigger] now.contains_key(l) implies blocks.contains_key(
        now[l],
    ) by {
        if l != label {
            assert(labels.contains_key(l));
        }
    }
    assert forall|id: BbId|
        blocks.contains_key(id) && (#[trigger] blocks[id]).inner
            is Placeholder implies now.contains_value(id) by {
        let l = choose|l: Seq<char>| labels.contains_key(l) && labels[l] == id;
        if l != label {
            assert(now.contains_key(l) && now[l] == id);
        }
    }
}

/// `id` is the block with the greatest id.
pub open spec fn is_last<S, C>(blocks: Blocks<S, C>, id: BbId) -> bool {
    blocks.contains_key(id) && forall|k: BbId| #[trigger] blocks.contains_key(k) ==> k <= id
}

} // verus!
