//! Reachability: which blocks can be reached from the public ones, and
//! which of them has a single block that refers to it.

use crate::arena::{views, ABB};
use crate::graph::Blocks;
use crate::ids::keys_sorted;
use crate::jump::IntoTargetsIter;
use crate::BbId;
use std::collections::{BTreeMap, BTreeSet};
use vstd::prelude::*;

verus! {

/// The block `from` refers to the id `to`.
pub open spec fn refers<S, C>(blocks: Blocks<S, C>, from: BbId, to: BbId) -> bool where
    S: IntoTargetsIter<Target = BbId>,
    C: IntoTargetsIter<Target = BbId>,
 {
    blocks.contains_key(from) && blocks[from].targets().contains(to)
}

/// The block at place `i` of `path` refers to the block at the next place.
pub open spec fn hop<S, C>(blocks: Blocks<S, C>, path: Seq<BbId>, i: int) -> bool where
    S: IntoTargetsIter<Target = BbId>,
    C: IntoTargetsIter<Target = BbId>,
 {
    refers(blocks, path[i], path[i + 1]) && blocks.contains_key(path[i + 1])
}

/// `path` leads from a public block, reference by reference, through
/// blocks of the arena.
pub open spec fn is_path<S, C>(blocks: Blocks<S, C>, path: Seq<BbId>) -> bool where
    S: IntoTargetsIter<Target = BbId>,
    C: IntoTargetsIter<Target = BbId>,
 {
    &&& path.len() > 0
    &&& blocks.contains_key(path[0])
    &&& blocks[path[0]].is_public
    &&& forall|i: int| 0 <= i < path.len() - 1 ==> #[trigger] hop(blocks, path, i)
}

/// The block `id` can be reached from a public block.
pub open spec fn reachable<S, C>(blocks: Blocks<S, C>, id: BbId) -> bool where
    S: IntoTargetsIter<Target = BbId>,
    C: IntoTargetsIter<Target = BbId>,
 {
    exists|path: Seq<BbId>| #[trigger] is_path(blocks, path) && path.last() == id
}

/// The blocks that can be reached from a public block.
pub open spec fn live<S, C>(blocks: Blocks<S, C>) -> Set<BbId> where
    S: IntoTargetsIter<Target = BbId>,
    C: IntoTargetsIter<Target = BbId>,
 {
    Set::new(|id: BbId| reachable(blocks, id))
}

/// A public block can be reached.
pub proof fn lemma_public_reachable<S, C>(blocks: Blocks<S, C>, id: BbId) where
    S: IntoTargetsIter<Target = BbId>,
    C: IntoTargetsIter<Target = BbId>,

    requires
        blocks.contains_key(id),
        blocks[id].is_public,
    ensures
        reachable(blocks, id),
{
    let path = seq![id];
    assert(is_path(blocks, path));
    assert(path.last() == id);
}

/// A block that a reachable block refers to can be reached.
pub proof fn lemma_next_reachable<S, C>(blocks: Blocks<S, C>, from: BbId, to: BbId) where
    S: IntoTargetsIter<Target = BbId>,
    C: IntoTargetsIter<Target = BbId>,

    requires
        reachable(blocks, from),
        refers(blocks, from, to),
        blocks.contains_key(to),
    ensures
        reachable(blocks, to),
{
    let path = choose|path: Seq<BbId>| #[trigger] is_path(blocks, path) && path.last() == from;
    let longer = path.push(to);
    assert forall|i: int| 0 <= i < longer.len() - 1 implies #[trigger] hop(blocks, longer, i) by {
        if i < path.len() - 1 {
            assert(hop(blocks, path, i));
        }
    }
    assert(is_path(blocks, longer));
    assert(longer.last() == to);
}

/// A reachable block is a block.
pub proof fn lemma_reachable_exists<S, C>(blocks: Blocks<S, C>, id: BbId) where
    S: IntoTargetsIter<Target = BbId>,
    C: IntoTargetsIter<Target = BbId>,

    requires
        reachable(blocks, id),
    ensures
        blocks.contains_key(id),
{
    let path = choose|path: Seq<BbId>| #[trigger] is_path(blocks, path) && path.last() == id;
    if path.len() > 1 {
        assert(hop(blocks, path, path.len() - 2));
    }
}

/// A set that holds the public blocks, and with a block every block that
/// it refers to, holds every block of a path.
proof fn lemma_path_within<S, C>(blocks: Blocks<S, C>, within: Set<BbId>, path: Seq<BbId>, k: int) where
    S: IntoTargetsIter<Target = BbId>,
    C: IntoTargetsIter<Target = BbId>,

    requires
        is_path(blocks, path),
        0 <= k < path.len(),
        forall|p: BbId| blocks.contains_key(p) && (#[trigger] blocks[p]).is_public ==> within.contains(p),
        forall|u: BbId, x: BbId|
            within.contains(u) && #[trigger] refers(blocks, u, x) && blocks.contains_key(x)
                ==> within.contains(x),
    ensures
        within.contains(path[k]),
    decreases k,
{
    if k > 0 {
        lemma_path_within(blocks, within, path, k - 1);
        assert(hop(blocks, path, k - 1));
    }
}

/// A set of reachable blocks that holds the public blocks, and with a
/// block every block that it refers to, is the set of the reachable
/// blocks.
pub proof fn lemma_closed_is_live<S, C>(blocks: Blocks<S, C>, within: Set<BbId>) where
    S: IntoTargetsIter<Target = BbId>,
    C: IntoTargetsIter<Target = BbId>,

    requires
        forall|u: BbId| within.contains(u) ==> reachable(blocks, u),
        forall|p: BbId| blocks.contains_key(p) && (#[trigger] blocks[p]).is_public ==> within.contains(p),
        forall|u: BbId, x: BbId|
            within.contains(u) && #[trigger] refers(blocks, u, x) && blocks.contains_key(x)
                ==> within.contains(x),
    ensures
        within == live(blocks),
{
    assert forall|id: BbId| reachable(blocks, id) implies within.contains(id) by {
        let path = choose|path: Seq<BbId>| #[trigger] is_path(blocks, path) && path.last() == id;
        lemma_path_within(blocks, within, path, path.len() - 1);
    }
    assert(within =~= live(blocks));
}

/// Among the blocks of `among`, `h` refers to `t` and no other does.
pub open spec fn sole_source<S, C>(blocks: Blocks<S, C>, among: Set<BbId>, t: BbId, h: BbId) -> bool where
    S: IntoTargetsIter<Target = BbId>,
    C: IntoTargetsIter<Target = BbId>,
 {
    &&& among.contains(h)
    &&& refers(blocks, h, t)
    &&& forall|s: BbId| among.contains(s) && #[trigger] refers(blocks, s, t) ==> s == h
}

/// Among the blocks of `among`, both `a` and `b` refer to `t`.
pub open spec fn two_sources<S, C>(
    blocks: Blocks<S, C>,
    among: Set<BbId>,
    t: BbId,
    a: BbId,
    b: BbId,
) -> bool where S: IntoTargetsIter<Target = BbId>, C: IntoTargetsIter<Target = BbId> {
    a != b && among.contains(a) && among.contains(b) && refers(blocks, a, t) && refers(blocks, b, t)
}

/// The one block of `among` that refers to `t`, if there is exactly one.
pub open spec fn head_of<S, C>(blocks: Blocks<S, C>, among: Set<BbId>, t: BbId) -> Option<
    BbId,
> where S: IntoTargetsIter<Target = BbId>, C: IntoTargetsIter<Target = BbId> {
    if exists|h: BbId| sole_source(blocks, among, t, h) {
        Some(choose|h: BbId| sole_source(blocks, among, t, h))
    } else {
        None
    }
}

/// What `sources` says of the id `t` is true of the references that the
/// blocks of `among` make: no entry where none refers to `t`, the block
/// where one does, and `None` where several do.
pub open spec fn counts<S, C>(
    sources: Map<BbId, Option<BbId>>,
    blocks: Blocks<S, C>,
    among: Set<BbId>,
    t: BbId,
) -> bool where S: IntoTargetsIter<Target = BbId>, C: IntoTargetsIter<Target = BbId> {
    if sources.contains_key(t) {
        match sources[t] {
            Some(h) => sole_source(blocks, among, t, h),
            None => exists|a: BbId, b: BbId| two_sources(blocks, among, t, a, b),
        }
    } else {
        forall|s: BbId| among.contains(s) ==> !#[trigger] refers(blocks, s, t)
    }
}

/// `sources` counts, for every id, the blocks of `among` that refer to it.
pub open spec fn counted<S, C>(
    sources: Map<BbId, Option<BbId>>,
    blocks: Blocks<S, C>,
    among: Set<BbId>,
) -> bool where S: IntoTargetsIter<Target = BbId>, C: IntoTargetsIter<Target = BbId> {
    forall|t: BbId| #[trigger] counts(sources, blocks, among, t)
}

/// Where the count says so, `h` is the head of `t`; and where it names no
/// block, `t` has no head.
pub proof fn lemma_counted_head<S, C>(
    sources: Map<BbId, Option<BbId>>,
    blocks: Blocks<S, C>,
    among: Set<BbId>,
    t: BbId,
) where S: IntoTargetsIter<Target = BbId>, C: IntoTargetsIter<Target = BbId>
    requires
        counted(sources, blocks, among),
    ensures
        head_of(blocks, among, t) == if sources.contains_key(t) {
            sources[t]
        } else {
            None
        },
{
    assert(counts(sources, blocks, among, t));
    if sources.contains_key(t) {
        match sources[t] {
            Some(h) => {
                let g = choose|g: BbId| sole_source(blocks, among, t, g);
                assert(refers(blocks, g, t));
            },
            None => {
                let (a, b) = choose|a: BbId, b: BbId| two_sources(blocks, among, t, a, b);
                if exists|h: BbId| sole_source(blocks, among, t, h) {
                    let h = choose|h: BbId| sole_source(blocks, among, t, h);
                    assert(refers(blocks, a, t));
                    assert(refers(blocks, b, t));
                }
            },
        }
    } else {
        if exists|h: BbId| sole_source(blocks, among, t, h) {
            let h = choose|h: BbId| sole_source(blocks, among, t, h);
            assert(refers(blocks, h, t));
        }
    }
}

/// The count after the block `i` was seen to refer to `x`.
pub open spec fn note_one(m: Map<BbId, Option<BbId>>, i: BbId, x: BbId) -> Map<
    BbId,
    Option<BbId>,
> {
    if !m.contains_key(x) {
        m.insert(x, Some(i))
    } else if m[x] == Some(i) || m[x] is None {
        m
    } else {
        m.insert(x, None)
    }
}

/// The count after the block `i` was seen to refer to each id of `ts`.
pub open spec fn noted(m: Map<BbId, Option<BbId>>, i: BbId, ts: Seq<BbId>) -> Map<
    BbId,
    Option<BbId>,
>
    decreases ts.len(),
{
    if ts.len() == 0 {
        m
    } else {
        note_one(noted(m, i, ts.drop_last()), i, ts.last())
    }
}

/// What `noted` holds for each id.
proof fn lemma_noted(m: Map<BbId, Option<BbId>>, i: BbId, ts: Seq<BbId>, x: BbId)
    ensures
        !ts.contains(x) ==> noted(m, i, ts).contains_key(x) == m.contains_key(x) && (m.contains_key(
            x,
        ) ==> noted(m, i, ts)[x] == m[x]),
        ts.contains(x) ==> noted(m, i, ts).contains_key(x) && noted(m, i, ts)[x] == (if !m.contains_key(
            x,
        ) || m[x] == Some(i) {
            Some(i)
        } else {
            None
        }),
    decreases ts.len(),
{
    if ts.len() > 0 {
        let front = ts.drop_last();
        lemma_noted(m, i, front, x);
        if ts.contains(x) {
            let k = choose|k: int| 0 <= k < ts.len() && ts[k] == x;
            if k < front.len() {
                assert(front[k] == x);
            } else {
                assert(ts.last() == x);
            }
        }
        if front.contains(x) {
            let k = choose|k: int| 0 <= k < front.len() && front[k] == x;
            assert(ts[k] == x);
        }
        if ts.last() == x {
            assert(ts[ts.len() - 1] == x);
        }
    }
}

/// Counting the references of one more block keeps the count true.
proof fn lemma_noted_counted<S, C>(
    m: Map<BbId, Option<BbId>>,
    blocks: Blocks<S, C>,
    among: Set<BbId>,
    i: BbId,
) where S: IntoTargetsIter<Target = BbId>, C: IntoTargetsIter<Target = BbId>
    requires
        counted(m, blocks, among),
        !among.contains(i),
        blocks.contains_key(i),
    ensures
        counted(noted(m, i, blocks[i].targets()), blocks, among.insert(i)),
{
    let ts = blocks[i].targets();
    let now = noted(m, i, ts);
    let more = among.insert(i);
    assert forall|t: BbId| #[trigger] counts(now, blocks, more, t) by {
        lemma_noted(m, i, ts, t);
        assert(counts(m, blocks, among, t));
        if ts.contains(t) {
            assert(refers(blocks, i, t));
            if !m.contains_key(t) {
                assert(sole_source(blocks, more, t, i)) by {
                    assert forall|s: BbId| more.contains(s) && #[trigger] refers(
                        blocks,
                        s,
                        t,
                    ) implies s == i by {
                        if s != i {
                            assert(among.contains(s));
                        }
                    }
                }
            } else {
                match m[t] {
                    Some(h) => {
                        assert(h != i);
                        assert(two_sources(blocks, more, t, h, i));
                    },
                    None => {
                        let (a, b) = choose|a: BbId, b: BbId| two_sources(blocks, among, t, a, b);
                        assert(two_sources(blocks, more, t, a, b));
                    },
                }
            }
        } else {
            assert(!refers(blocks, i, t));
            if m.contains_key(t) {
                match m[t] {
                    Some(h) => {
                        assert(sole_source(blocks, more, t, h)) by {
                            assert forall|s: BbId| more.contains(s) && #[trigger] refers(
                                blocks,
                                s,
                                t,
                            ) implies s == h by {
                                assert(among.contains(s));
                            }
                        }
                    },
                    None => {
                        let (a, b) = choose|a: BbId, b: BbId| two_sources(blocks, among, t, a, b);
                        assert(two_sources(blocks, more, t, a, b));
                    },
                }
            } else {
                assert forall|s: BbId| more.contains(s) implies !#[trigger] refers(
                    blocks,
                    s,
                    t,
                ) by {
                    if s != i {
                        assert(among.contains(s));
                    }
                }
            }
        }
    }
}

/// Counts the block `i` as a source of each id of `targets`, and puts
/// those ids on the list of what is still to visit.
fn record(
    i: BbId,
    targets: &Vec<BbId>,
    sources: &mut BTreeMap<BbId, Option<BbId>>,
    work: &mut Vec<BbId>,
)
    ensures
        final(sources)@ == noted(old(sources)@, i, targets@),
        final(work)@ == old(work)@ + targets@,
{
    let mut k: usize = 0;
    while k < targets.len()
        invariant
            k <= targets.len(),
            sources@ == noted(old(sources)@, i, targets@.take(k as int)),
            work@ == old(work)@ + targets@.take(k as int),
        decreases targets.len() - k,
    {
        let x = targets[k];
        assert(targets@.take(k as int + 1).drop_last() =~= targets@.take(k as int));
        let seen: Option<Option<BbId>> = match sources.get(&x) {
            Some(v) => Some(*v),
            None => None,
        };
        match seen {
            None => {
                sources.insert(x, Some(i));
            },
            Some(Some(s)) => {
                if s != i {
                    sources.insert(x, None);
                }
            },
            Some(None) => {},
        }
        work.push(x);
        assert(work@ =~= old(work)@ + targets@.take(k as int + 1));
        k += 1;
    }
    assert(targets@.take(targets@.len() as int) =~= targets@);
}

/// `x`, if it is a block, is visited already or still on the list.
pub open spec fn covered<S, C>(blocks: Blocks<S, C>, seen: Set<BbId>, work: Seq<BbId>, x: BbId) -> bool {
    blocks.contains_key(x) ==> seen.contains(x) || work.contains(x)
}

/// The blocks that can be reached from the public ones, and for each id
/// that one of them refers to, whether one block refers to it or several.
pub fn mark<S, C>(bbs: &BTreeMap<BbId, ABB<S, C>>) -> (r: (
    BTreeSet<BbId>,
    BTreeMap<BbId, Option<BbId>>,
)) where S: IntoTargetsIter<Target = BbId>, C: IntoTargetsIter<Target = BbId>
    ensures
        r.0@ == live(views(bbs@)),
        counted(r.1@, views(bbs@), r.0@),
{
    let ghost blocks = views(bbs@);
    let keys = keys_sorted(bbs);
    let mut work: Vec<BbId> = Vec::new();
    let mut n: usize = 0;
    while n < keys.len()
        invariant
            n <= keys.len(),
            blocks == views(bbs@),
            keys@.to_set() == bbs@.dom(),
            forall|w: BbId| work@.contains(w) ==> reachable(blocks, w),
            forall|j: int|
                0 <= j < n && (#[trigger] blocks[keys@[j]]).is_public ==> work@.contains(keys@[j]),
        decreases keys.len() - n,
    {
        let k = keys[n];
        assert(keys@.to_set().contains(k));
        let ghost work0 = work@;
        match bbs.get(&k) {
            Some(bb) => {
                if bb.is_public {
                    work.push(k);
                    proof {
                        lemma_public_reachable(blocks, k);
                    }
                }
            },
            None => {},
        }
        proof {
            assert forall|w: BbId| work@.contains(w) implies reachable(blocks, w) by {
                let a = choose|a: int| 0 <= a < work@.len() && work@[a] == w;
                if a < work0.len() {
                    assert(work0[a] == w);
                    assert(work0.contains(w));
                }
            }
            assert forall|j: int|
                0 <= j < n + 1 && (#[trigger] blocks[keys@[j]]).is_public implies work@.contains(
                keys@[j],
            ) by {
                if j < n {
                    assert(work0.contains(keys@[j]));
                    let a = choose|a: int| 0 <= a < work0.len() && work0[a] == keys@[j];
                    assert(work@[a] == keys@[j]);
                } else {
                    assert(work@[work@.len() - 1] == k);
                }
            }
        }
        n += 1;
    }
    let mut in_use: BTreeSet<BbId> = BTreeSet::new();
    let mut sources: BTreeMap<BbId, Option<BbId>> = BTreeMap::new();
    proof {
        assert forall|p: BbId|
            blocks.contains_key(p) && (#[trigger] blocks[p]).is_public implies covered(
            blocks,
            in_use@,
            work@,
            p,
        ) by {
            assert(keys@.to_set().contains(p));
            let j = choose|j: int| 0 <= j < keys@.len() && keys@[j] == p;
            assert(blocks[keys@[j]].is_public);
        }
        assert forall|t: BbId| #[trigger] counts(sources@, blocks, in_use@, t) by {}
    }
    while work.len() > 0
        invariant
            blocks == views(bbs@),
            bbs@.dom().finite(),
            in_use@.finite(),
            in_use@.subset_of(bbs@.dom()),
            forall|u: BbId| in_use@.contains(u) ==> reachable(blocks, u),
            forall|w: BbId| work@.contains(w) && blocks.contains_key(w) ==> reachable(blocks, w),
            forall|p: BbId|
                blocks.contains_key(p) && (#[trigger] blocks[p]).is_public ==> covered(
                    blocks,
                    in_use@,
                    work@,
                    p,
                ),
            forall|u: BbId, x: BbId|
                in_use@.contains(u) && #[trigger] refers(blocks, u, x) ==> covered(
                    blocks,
                    in_use@,
                    work@,
                    x,
                ),
            counted(sources@, blocks, in_use@),
        decreases bbs@.len() - in_use@.len(), work.len(),
    {
        let ghost work0 = work@;
        let ghost seen0 = in_use@;
        let i = work.pop().unwrap();
        let ghost rest = work@;
        assert(work0 =~= rest.push(i));
        proof {
            vstd::set_lib::lemma_len_subset(seen0, bbs@.dom());
        }
        let mut grown = false;
        match bbs.get(&i) {
            Some(bb) => {
                if in_use.insert(i) {
                    grown = true;
                    let targets = bb.inner.into_trgs_iter();
                    assert(blocks[i] == bb@);
                    proof {
                        lemma_noted_counted(sources@, blocks, seen0, i);
                        assert(work0.contains(i)) by {
                            assert(work0[work0.len() - 1] == i);
                        }
                        vstd::set_lib::lemma_len_subset(in_use@, bbs@.dom());
                    }
                    record(i, &targets, &mut sources, &mut work);
                    assert(work@ == rest + blocks[i].targets());
                }
            },
            None => {},
        }
        proof {
            if !grown {
                assert(in_use@ =~= seen0);
                assert(work@ == rest);
            }
            assert forall|w: BbId|
                work@.contains(w) && blocks.contains_key(w) implies reachable(blocks, w) by {
                let a = choose|a: int| 0 <= a < work@.len() && work@[a] == w;
                if a < rest.len() {
                    assert(work0[a] == w);
                    assert(work0.contains(w));
                } else {
                    assert(blocks[i].targets()[a - rest.len()] == w);
                    assert(refers(blocks, i, w));
                    lemma_next_reachable(blocks, i, w);
                }
            }
            assert forall|x: BbId| covered(blocks, seen0, work0, x) implies covered(
                blocks,
                in_use@,
                work@,
                x,
            ) by {
                if blocks.contains_key(x) && !in_use@.contains(x) {
                    assert(work0.contains(x));
                    let a = choose|a: int| 0 <= a < work0.len() && work0[a] == x;
                    if a < rest.len() {
                        assert(work@[a] == x);
                    } else {
                        assert(x == i);
                        assert(false);
                    }
                }
            }
            assert forall|u: BbId, x: BbId|
                in_use@.contains(u) && #[trigger] refers(blocks, u, x) implies covered(
                blocks,
                in_use@,
                work@,
                x,
            ) by {
                if seen0.contains(u) {
                    assert(covered(blocks, seen0, work0, x));
                } else {
                    assert(u == i && grown);
                    let ts = blocks[i].targets();
                    let k = choose|k: int| 0 <= k < ts.len() && ts[k] == x;
                    assert(work@[rest.len() + k] == x);
                }
            }
            assert forall|p: BbId|
                blocks.contains_key(p) && (#[trigger] blocks[p]).is_public implies covered(
                blocks,
                in_use@,
                work@,
                p,
            ) by {
                assert(covered(blocks, seen0, work0, p));
            }
        }
    }
    proof {
        assert forall|u: BbId, x: BbId|
            in_use@.contains(u) && #[trigger] refers(blocks, u, x) && blocks.contains_key(
                x,
            ) implies in_use@.contains(x) by {
            assert(covered(blocks, in_use@, work@, x));
        }
        assert forall|p: BbId|
            blocks.contains_key(p) && (#[trigger] blocks[p]).is_public implies in_use@.contains(
            p,
        ) by {
            assert(covered(blocks, in_use@, work@, p));
        }
        lemma_closed_is_live(blocks, in_use@);
    }
    (in_use, sources)
}

} // verus!
