//! Checking the integrity of an arena, and the two operations that keep
//! it: `push` and `remove`.

use super::{views, Arena, OffendingIds, ABB};
use crate::graph::{
    all_dangling, dangling, dangling_below, dangling_pairs, is_first_free, is_last,
    lemma_dangling_below, lemma_dangling_gap, lemma_dangling_pairs, lemma_push_keeps_sound,
    lemma_remove_keeps_sound, lemma_wf_offending, none_free, offending, offends, orphan, pair_lt,
    pairs_ascending, rejected, unreferenced, wf,
};
use crate::ids::{ascending, keys_sorted};
use crate::jump::IntoTargetsIter;
use crate::labels::{bound_to, increasing, strings_view};
use crate::BbId;
use either::Either;
use std::collections::BTreeMap;
use vstd::prelude::*;

verus! {

/// `either::Either`, the sum of two types. Here it holds what the check of
/// one block found: on the left at most one pair, for a placeholder; on the
/// right the pairs of a concrete block.
#[verifier::external_type_specification]
#[verifier::external_body]
#[verifier::reject_recursive_types(L)]
#[verifier::reject_recursive_types(R)]
pub struct ExEither<L, R>(Either<L, R>);

/// The pairs that an `Either` of an optional pair and a vector of pairs
/// holds, in order.
pub uninterp spec fn found_pairs(e: Either<Option<(BbId, BbId)>, Vec<(BbId, BbId)>>) -> Seq<
    (BbId, BbId),
>;

/// Calls `Either::Left`. The value made holds the pair `o`, if there is
/// one, and nothing else.
#[verifier::external_body]
fn found_left(o: Option<(BbId, BbId)>) -> (e: Either<Option<(BbId, BbId)>, Vec<(BbId, BbId)>>)
    ensures
        found_pairs(e) == match o {
            Some(p) => seq![p],
            None => Seq::empty(),
        },
{
    Either::Left(o)
}

/// Calls `Either::Right`. The value made holds the pairs of `v`, in their
/// order.
#[verifier::external_body]
fn found_right(v: Vec<(BbId, BbId)>) -> (e: Either<Option<(BbId, BbId)>, Vec<(BbId, BbId)>>)
    ensures
        found_pairs(e) == v@,
{
    Either::Right(v)
}

/// Calls `Either::into_iter`, which hands on to the iterator of the side
/// that the value holds, and collects what it yields: the pairs held, in
/// their order.
#[verifier::external_body]
fn found_into_vec(e: Either<Option<(BbId, BbId)>, Vec<(BbId, BbId)>>) -> (r: Vec<(BbId, BbId)>)
    ensures
        r@ == found_pairs(e),
{
    e.into_iter().collect()
}

/// Puts `p` at its place in an ascending vector of pairs, unless it is
/// there already.
fn insert_pair(v: &mut Vec<(BbId, BbId)>, p: (BbId, BbId))
    requires
        pairs_ascending(old(v)@),
    ensures
        pairs_ascending(final(v)@),
        final(v)@.to_set() == old(v)@.to_set().insert(p),
{
    let mut at: usize = 0;
    while at < v.len() && (v[at].0 < p.0 || (v[at].0 == p.0 && v[at].1 < p.1))
        invariant
            at <= v.len(),
            v@ == old(v)@,
            forall|i: int| 0 <= i < at ==> pair_lt(v@[i], p),
        decreases v.len() - at,
    {
        at += 1;
    }
    if at < v.len() && v[at].0 == p.0 && v[at].1 == p.1 {
        assert(v@[at as int] == p);
        assert(v@.to_set() =~= v@.to_set().insert(p));
        return ;
    }
    let ghost before = v@;
    v.insert(at, p);
    proof {
        assert forall|i: int, j: int| 0 <= i < j < v@.len() implies pair_lt(v@[i], v@[j]) by {
            let i0 = if i < at {
                i
            } else {
                i - 1
            };
            let j0 = if j < at {
                j
            } else {
                j - 1
            };
            if i == at {
                assert(v@[j] == before[j0]);
                assert(j0 == at || pair_lt(before[at as int], before[j0]));
            } else if j == at {
                assert(v@[i] == before[i0]);
            } else {
                assert(pair_lt(before[i0], before[j0]));
            }
        }
        assert forall|q: (BbId, BbId)| v@.to_set().contains(q) <==> before.to_set().insert(
            p,
        ).contains(q) by {
            if v@.to_set().contains(q) {
                let i = choose|i: int| 0 <= i < v@.len() && v@[i] == q;
                if i < at {
                    assert(before[i] == q);
                } else if i > at {
                    assert(before[i - 1] == q);
                }
            }
            if before.to_set().insert(p).contains(q) {
                if q == p {
                    assert(v@[at as int] == q);
                } else {
                    let i = choose|i: int| 0 <= i < before.len() && before[i] == q;
                    if i < at {
                        assert(v@[i] == q);
                    } else {
                        assert(v@[i + 1] == q);
                    }
                }
            }
        }
        assert(v@.to_set() =~= before.to_set().insert(p));
    }
}

/// Turns what a check found into its result: no error where nothing was
/// found, else the pairs found, each once and in increasing order.
pub fn check_finish(offending: Vec<(BbId, BbId)>) -> (r: Result<(), OffendingIds>)
    ensures
        match r {
            Ok(()) => offending@.len() == 0,
            Err(e) => {
                &&& offending@.len() > 0
                &&& pairs_ascending(e.0@)
                &&& e.0@.to_set() == offending@.to_set()
            },
        },
{
    if offending.len() == 0 {
        return Ok(());
    }
    let mut out: Vec<(BbId, BbId)> = Vec::new();
    let mut i: usize = 0;
    while i < offending.len()
        invariant
            i <= offending.len(),
            pairs_ascending(out@),
            out@.to_set() == offending@.take(i as int).to_set(),
        decreases offending.len() - i,
    {
        insert_pair(&mut out, offending[i]);
        proof {
            let a = offending@.take(i as int);
            let b = offending@.take(i as int + 1);
            assert(b =~= a.push(offending@[i as int]));
            assert forall|q: (BbId, BbId)| b.to_set().contains(q) <==> a.to_set().insert(
                offending@[i as int],
            ).contains(q) by {
                if b.to_set().contains(q) {
                    let k = choose|k: int| 0 <= k < b.len() && b[k] == q;
                    if k < a.len() {
                        assert(a[k] == q);
                    }
                }
                if a.to_set().contains(q) {
                    let k = choose|k: int| 0 <= k < a.len() && a[k] == q;
                    assert(b[k] == q);
                }
                if q == offending@[i as int] {
                    assert(b[i as int] == q);
                }
            }
            assert(b.to_set() =~= a.to_set().insert(offending@[i as int]));
        }
        i += 1;
    }
    assert(offending@.take(offending@.len() as int) =~= offending@);
    Err(OffendingIds(out))
}

impl<S, C> Arena<S, C> where
    S: IntoTargetsIter<Target = BbId>,
    C: IntoTargetsIter<Target = BbId>,
 {
    /// The dangling references that `bb` has, or would have, as the block
    /// `bbid` of this arena, in traversal order.
    pub fn check_intern(&self, bbid: BbId, bb: &ABB<S, C>) -> (r: Vec<(BbId, BbId)>)
        ensures
            r@ == dangling_pairs(self.blocks(), bbid, bb@.targets()),
    {
        let targets = bb.inner.into_trgs_iter();
        let mut r: Vec<(BbId, BbId)> = Vec::new();
        let mut i: usize = 0;
        while i < targets.len()
            invariant
                i <= targets.len(),
                targets@ == bb@.targets(),
                r@ == dangling_pairs(self.blocks(), bbid, targets@.take(i as int)),
            decreases targets.len() - i,
        {
            let t = targets[i];
            assert(targets@.take(i as int + 1).drop_last() =~= targets@.take(i as int));
            if t != bbid && self.bbs.get(&t).is_none() {
                r.push((bbid, t));
            }
            i += 1;
        }
        assert(targets@.take(targets@.len() as int) =~= targets@);
        r
    }

    /// Checks the integrity of the arena: every reference resolves, every
    /// label is bound to a block, and every placeholder has a label. This
    /// is to be called after the blocks were changed through `bbs_mut`.
    ///
    /// The error lists what offends, each pair once, in increasing order.
    pub fn check(&self) -> (r: Result<(), OffendingIds>)
        ensures
            match r {
                Ok(()) => wf(self.blocks(), self.label_map()),
                Err(e) => {
                    &&& !wf(self.blocks(), self.label_map())
                    &&& pairs_ascending(e.0@)
                    &&& e.0@.to_set() == offending(self.blocks(), self.label_map())
                },
            },
    {
        let ghost blocks = self.blocks();
        let ghost labels = self.label_map();
        let keys = keys_sorted(&self.bbs);
        let mut errs: Vec<(BbId, BbId)> = Vec::new();
        let mut i: usize = 0;
        while i < keys.len()
            invariant
                i <= keys.len(),
                blocks == self.blocks(),
                labels == self.label_map(),
                keys@.to_set() == self.bbs@.dom(),
                ascending(keys@),
                forall|p: (BbId, BbId)| #[trigger]
                    errs@.contains(p) <==> exists|j: int|
                        0 <= j < i && keys@[j] == p.0 && (dangling(blocks, p.0, p.1) || p.0 == p.1
                            && orphan(blocks, labels, p.0)),
            decreases keys.len() - i,
        {
            let n = keys[i];
            assert(keys@.to_set().contains(n));
            let ghost errs0 = errs@;
            match self.bbs.get(&n) {
                Some(bb) => {
                    let one = if bb.inner.is_placeholder() {
                        found_left(
                            if self.labels.is_bound(n) {
                                None
                            } else {
                                Some((n, n))
                            },
                        )
                    } else {
                        found_right(self.check_intern(n, bb))
                    };
                    let mut found = found_into_vec(one);
                    let ghost own = found@;
                    proof {
                        lemma_dangling_pairs(blocks, n, bb@.targets());
                        assert(blocks[n] == bb@);
                    }
                    errs.append(&mut found);
                    proof {
                        assert(errs@ =~= errs0 + own);
                        assert forall|q: (BbId, BbId)| own.contains(q) <==> q.0 == n && (dangling(
                            blocks,
                            q.0,
                            q.1,
                        ) || q.0 == q.1 && orphan(blocks, labels, q.0)) by {
                            if bb.inner@ is Placeholder {
                                if own.contains(q) {
                                    let k = choose|k: int| 0 <= k < own.len() && own[k] == q;
                                }
                                if q.0 == n && q.0 == q.1 && orphan(blocks, labels, q.0) {
                                    assert(own[0] == q);
                                }
                            }
                        }
                        assert forall|p: (BbId, BbId)| #[trigger]
                            errs@.contains(p) <==> exists|j: int|
                                0 <= j < i + 1 && keys@[j] == p.0 && (dangling(blocks, p.0, p.1)
                                    || p.0 == p.1 && orphan(blocks, labels, p.0)) by {
                            if errs@.contains(p) {
                                let k = choose|k: int| 0 <= k < errs@.len() && errs@[k] == p;
                                if k < errs0.len() {
                                    assert(errs0[k] == p);
                                    assert(errs0.contains(p));
                                    let j = choose|j: int|
                                        0 <= j < i && keys@[j] == p.0 && (dangling(
                                            blocks,
                                            p.0,
                                            p.1,
                                        ) || p.0 == p.1 && orphan(blocks, labels, p.0));
                                    assert(0 <= j < i + 1);
                                } else {
                                    assert(own[k - errs0.len()] == p);
                                    assert(own.contains(p));
                                    assert(keys@[i as int] == p.0);
                                }
                            }
                            if exists|j: int|
                                0 <= j < i + 1 && keys@[j] == p.0 && (dangling(blocks, p.0, p.1)
                                    || p.0 == p.1 && orphan(blocks, labels, p.0)) {
                                let j = choose|j: int|
                                    0 <= j < i + 1 && keys@[j] == p.0 && (dangling(
                                        blocks,
                                        p.0,
                                        p.1,
                                    ) || p.0 == p.1 && orphan(blocks, labels, p.0));
                                if j < i {
                                    assert(errs0.contains(p));
                                    let k = choose|k: int| 0 <= k < errs0.len() && errs0[k] == p;
                                    assert(errs@[k] == p);
                                } else {
                                    assert(own.contains(p));
                                    let k = choose|k: int| 0 <= k < own.len() && own[k] == p;
                                    assert(errs@[errs0.len() + k] == p);
                                }
                            }
                        }
                    }
                },
                None => {
                    proof {
                        assert(false);
                    }
                },
            }
            i += 1;
        }
        let bound = self.labels.targets();
        let ghost errs1 = errs@;
        let mut k: usize = 0;
        while k < bound.len()
            invariant
                k <= bound.len(),
                blocks == self.blocks(),
                labels == self.label_map(),
                bound@.to_set() == labels.values(),
                forall|p: (BbId, BbId)| #[trigger]
                    errs@.contains(p) <==> errs1.contains(p) || exists|j: int|
                        0 <= j < k && bound@[j] == p.0 && p.0 == p.1 && !blocks.contains_key(p.0),
            decreases bound.len() - k,
        {
            let t = bound[k];
            let ghost errs0 = errs@;
            if self.bbs.get(&t).is_none() {
                errs.push((t, t));
            }
            proof {
                assert forall|p: (BbId, BbId)| #[trigger]
                    errs@.contains(p) <==> errs1.contains(p) || exists|j: int|
                        0 <= j < k + 1 && bound@[j] == p.0 && p.0 == p.1 && !blocks.contains_key(
                            p.0,
                        ) by {
                    if errs@.contains(p) {
                        let a = choose|a: int| 0 <= a < errs@.len() && errs@[a] == p;
                        if a < errs0.len() {
                            assert(errs0[a] == p);
                            assert(errs0.contains(p));
                            if !errs1.contains(p) {
                                let j = choose|j: int|
                                    0 <= j < k && bound@[j] == p.0 && p.0 == p.1
                                        && !blocks.contains_key(p.0);
                                assert(0 <= j < k + 1);
                            }
                        } else {
                            assert(bound@[k as int] == p.0);
                        }
                    }
                    if errs1.contains(p) {
                        assert(errs0.contains(p));
                        let a = choose|a: int| 0 <= a < errs0.len() && errs0[a] == p;
                        assert(errs@[a] == p);
                    }
                    if exists|j: int|
                        0 <= j < k + 1 && bound@[j] == p.0 && p.0 == p.1 && !blocks.contains_key(
                            p.0,
                        ) {
                        let j = choose|j: int|
                            0 <= j < k + 1 && bound@[j] == p.0 && p.0 == p.1
                                && !blocks.contains_key(p.0);
                        if j < k {
                            assert(errs0.contains(p));
                            let a = choose|a: int| 0 <= a < errs0.len() && errs0[a] == p;
                            assert(errs@[a] == p);
                        } else {
                            assert(errs@[errs0.len() as int] == p);
                        }
                    }
                }
            }
            k += 1;
        }
        proof {
            let off = offending(blocks, labels);
            assert forall|p: (BbId, BbId)| errs@.to_set().contains(p) <==> off.contains(p) by {
                if errs@.contains(p) {
                    if !errs1.contains(p) {
                        let j = choose|j: int|
                            0 <= j < bound@.len() && bound@[j] == p.0 && p.0 == p.1
                                && !blocks.contains_key(p.0);
                        assert(bound@.to_set().contains(p.0));
                    }
                }
                if off.contains(p) {
                    if dangling(blocks, p.0, p.1) || p.0 == p.1 && orphan(blocks, labels, p.0) {
                        assert(keys@.to_set().contains(p.0));
                        let j = choose|j: int| 0 <= j < keys@.len() && keys@[j] == p.0;
                        assert(errs1.contains(p));
                    } else {
                        assert(bound@.to_set().contains(p.0));
                        let j = choose|j: int| 0 <= j < bound@.len() && bound@[j] == p.0;
                    }
                }
            }
            assert(errs@.to_set() =~= off);
            lemma_wf_offending(blocks, labels);
            if errs@.len() > 0 {
                assert(errs@.to_set().contains(errs@[0]));
            } else {
                assert(errs@.to_set() =~= Set::<(BbId, BbId)>::empty());
            }
        }
        check_finish(errs)
    }

    /// The smallest free id from the cached lower bound on.
    pub fn find_first_free(&self) -> (r: Option<usize>)
        ensures
            match r {
                Some(n) => is_first_free(self.blocks(), self.hint(), n),
                None => none_free(self.blocks(), self.hint()),
            },
    {
        let mut i: usize = self.cache_ins_start;
        while i < usize::MAX
            invariant
                self.cache_ins_start <= i,
                forall|k: BbId| self.cache_ins_start <= k < i ==> self.blocks().contains_key(k),
            decreases usize::MAX - i,
        {
            if self.bbs.get(&i).is_none() {
                return Some(i);
            }
            i += 1;
        }
        None
    }

    /// Adds `bb` under the smallest free id from the cached lower bound on,
    /// and returns that id.
    ///
    /// The block is refused, and handed back with the arena as it was, if it
    /// refers to an id that is neither a block nor the id it would get: the
    /// error lists those references, each once, in increasing order. It is
    /// also refused, with an empty list, if no id is free.
    pub fn push(&mut self, bb: ABB<S, C>) -> (r: Result<usize, (ABB<S, C>, OffendingIds)>)
        ensures
            match r {
                Ok(n) => {
                    &&& is_first_free(old(self).blocks(), old(self).hint(), n)
                    &&& rejected(old(self).blocks(), n, bb@.targets()) == Set::<
                        (BbId, BbId),
                    >::empty()
                    &&& final(self).bbs_view() == old(self).bbs_view().insert(n, bb)
                    &&& final(self).label_map() == old(self).label_map()
                    &&& final(self).hint() == n + 1
                    &&& wf(old(self).blocks(), old(self).label_map()) && bb@.inner is Concrete
                        ==> wf(final(self).blocks(), final(self).label_map())
                },
                Err((back, e)) => {
                    &&& back == bb
                    &&& final(self).bbs_view() == old(self).bbs_view()
                    &&& final(self).label_map() == old(self).label_map()
                    &&& final(self).hint() == old(self).hint()
                    &&& pairs_ascending(e.0@)
                    &&& if e.0@.len() == 0 {
                        none_free(old(self).blocks(), old(self).hint())
                    } else {
                        exists|n: BbId|
                            is_first_free(old(self).blocks(), old(self).hint(), n) && e.0@.to_set()
                                == rejected(old(self).blocks(), n, bb@.targets())
                    }
                },
            },
    {
        let ret = match self.find_first_free() {
            Some(n) => n,
            None => {
                return Err((bb, OffendingIds(Vec::new())));
            },
        };
        let errs = self.check_intern(ret, &bb);
        proof {
            lemma_dangling_pairs(self.blocks(), ret, bb@.targets());
            assert(errs@.to_set() =~= rejected(self.blocks(), ret, bb@.targets()));
            if errs@.len() > 0 {
                assert(errs@.to_set().contains(errs@[0]));
            }
        }
        match check_finish(errs) {
            Ok(()) => {
                proof {
                    assert(rejected(self.blocks(), ret, bb@.targets()) =~= Set::<
                        (BbId, BbId),
                    >::empty());
                    if wf(self.blocks(), self.label_map()) && bb@.inner is Concrete {
                        lemma_push_keeps_sound(self.blocks(), self.label_map(), ret, bb@);
                    }
                    assert(views(self.bbs@.insert(ret, bb)) =~= self.blocks().insert(ret, bb@));
                }
                self.bbs.insert(ret, bb);
                self.cache_ins_start = ret.saturating_add(1);
                Ok(ret)
            },
            Err(errs) => {
                proof {
                    assert(errs.0@.len() > 0) by {
                        if errs.0@.len() == 0 {
                            assert(errs.0@.to_set() =~= Set::<(BbId, BbId)>::empty());
                        }
                    }
                }
                Err((bb, errs))
            },
        }
    }

    /// Removes the block `bbid`, unless a block that stays refers to it.
    ///
    /// Returns `None` if there is no such block. On success returns the
    /// block and the labels that were bound to it, in increasing order;
    /// they leave the arena with it. Otherwise the arena stays as it was,
    /// and the error lists the references that would dangle without the
    /// block, block by block in increasing order of the ids and for each
    /// block in traversal order.
    pub fn remove(&mut self, bbid: BbId) -> (r: Option<
        Result<(ABB<S, C>, Vec<String>), OffendingIds>,
    >)
        ensures
            match r {
                None => {
                    &&& !old(self).bbs_view().contains_key(bbid)
                    &&& final(self).bbs_view() == old(self).bbs_view()
                    &&& final(self).label_map() == old(self).label_map()
                    &&& final(self).hint() == old(self).hint()
                },
                Some(Ok((bb, names))) => {
                    &&& old(self).bbs_view().contains_key(bbid)
                    &&& bb == old(self).bbs_view()[bbid]
                    &&& all_dangling(old(self).blocks().remove(bbid)).len() == 0
                    &&& final(self).bbs_view() == old(self).bbs_view().remove(bbid)
                    &&& final(self).label_map() == old(self).label_map().remove_keys(
                        bound_to(old(self).label_map(), bbid),
                    )
                    &&& increasing(strings_view(names@))
                    &&& strings_view(names@).to_set() == bound_to(old(self).label_map(), bbid)
                    &&& final(self).hint() == if bbid < old(self).hint() {
                        bbid
                    } else {
                        old(self).hint()
                    }
                    &&& unreferenced(final(self).blocks(), final(self).label_map(), bbid)
                    &&& wf(old(self).blocks(), old(self).label_map()) ==> wf(
                        final(self).blocks(),
                        final(self).label_map(),
                    )
                },
                Some(Err(e)) => {
                    &&& old(self).bbs_view().contains_key(bbid)
                    &&& e.0@ == all_dangling(old(self).blocks().remove(bbid))
                    &&& e.0@.len() > 0
                    &&& final(self).bbs_view() == old(self).bbs_view()
                    &&& final(self).label_map() == old(self).label_map()
                    &&& final(self).hint() == old(self).hint()
                },
            },
    {
        let x = match self.bbs.remove(&bbid) {
            Some(x) => x,
            None => {
                return None;
            },
        };
        let ghost rest = self.blocks();
        assert(rest =~= old(self).blocks().remove(bbid));
        let keys = keys_sorted(&self.bbs);
        let mut offending: Vec<(BbId, BbId)> = Vec::new();
        let ghost mut done: nat = 0;
        let mut i: usize = 0;
        while i < keys.len()
            invariant
                i <= keys.len(),
                rest == self.blocks(),
                keys@.to_set() == self.bbs@.dom(),
                ascending(keys@),
                done <= usize::MAX + 1,
                i < keys.len() ==> done <= keys@[i as int],
                forall|j: int| 0 <= j < i ==> keys@[j] < done,
                offending@ == dangling_below(rest, done),
            decreases keys.len() - i,
        {
            let n = keys[i];
            assert(keys@.to_set().contains(n));
            proof {
                assert forall|k: BbId| done <= k < n implies !rest.contains_key(k) by {
                    if rest.contains_key(k) {
                        assert(keys@.to_set().contains(k));
                        let j = choose|j: int| 0 <= j < keys@.len() && keys@[j] == k;
                        if j < i {
                        } else if j > i {
                            assert(keys@[i as int] < keys@[j]);
                        }
                    }
                }
                lemma_dangling_gap(rest, done, n as nat);
            }
            match self.bbs.get(&n) {
                Some(bb) => {
                    let mut own = self.check_intern(n, bb);
                    assert(rest[n] == bb@);
                    offending.append(&mut own);
                },
                None => {
                    proof {
                        assert(false);
                    }
                },
            }
            proof {
                done = (n + 1) as nat;
                if i + 1 < keys.len() {
                    assert(keys@[i as int] < keys@[i + 1]);
                }
            }
            i += 1;
        }
        proof {
            assert forall|k: BbId| done <= k < usize::MAX + 1 implies !rest.contains_key(k) by {
                if rest.contains_key(k) {
                    assert(keys@.to_set().contains(k));
                    let j = choose|j: int| 0 <= j < keys@.len() && keys@[j] == k;
                }
            }
            lemma_dangling_gap(rest, done, (usize::MAX + 1) as nat);
        }
        Some(
            if offending.len() == 0 {
                let mut plan: BTreeMap<BbId, Option<BbId>> = BTreeMap::new();
                plan.insert(bbid, None);
                let ghost was = self.labels@;
                let names = self.labels.rewrite(&plan);
                if bbid < self.cache_ins_start {
                    self.cache_ins_start = bbid;
                }
                proof {
                    assert(self.labels@ =~= was.remove_keys(bound_to(was, bbid)));
                    assert(crate::labels::dropped(was, plan@) =~= bound_to(was, bbid));
                    lemma_dangling_below(rest, (usize::MAX + 1) as nat);
                    assert forall|n: BbId| rest.contains_key(n) && n != bbid implies !(
                    #[trigger] rest[n]).targets().contains(bbid) by {
                        if rest[n].targets().contains(bbid) {
                            assert(dangling(rest, n, bbid));
                            assert(all_dangling(rest).contains((n, bbid)));
                        }
                    }
                    if self.labels@.contains_value(bbid) {
                        let l = choose|l: Seq<char>|
                            self.labels@.contains_key(l) && self.labels@[l] == bbid;
                        assert(false);
                    }
                    if wf(old(self).blocks(), old(self).label_map()) {
                        lemma_remove_keeps_sound(old(self).blocks(), was, bbid);
                        assert(bound_to(was, bbid) =~= Set::new(
                            |l: Seq<char>| was.contains_key(l) && was[l] == bbid,
                        ));
                    }
                }
                Ok((x, names))
            } else {
                self.bbs.insert(bbid, x);
                assert(self.bbs@ =~= old(self).bbs@);
                Err(OffendingIds(offending))
            },
        )
    }

    /// Removes the block with the greatest id, unless a block that stays
    /// refers to it.
    ///
    /// Returns `None` if the arena is empty. On success returns the id,
    /// the block and the labels that were bound to it, in increasing
    /// order. Otherwise the arena stays as it was, and the error lists the
    /// references that would dangle without the block.
    pub fn pop(&mut self) -> (r: Option<Result<(usize, ABB<S, C>, Vec<String>), OffendingIds>>)
        ensures
            match r {
                None => {
                    &&& old(self).bbs_view() == Map::<BbId, ABB<S, C>>::empty()
                    &&& final(self).bbs_view() == old(self).bbs_view()
                    &&& final(self).label_map() == old(self).label_map()
                    &&& final(self).hint() == old(self).hint()
                },
                Some(Ok((id, bb, names))) => {
                    &&& is_last(old(self).blocks(), id)
                    &&& bb == old(self).bbs_view()[id]
                    &&& all_dangling(old(self).blocks().remove(id)).len() == 0
                    &&& final(self).bbs_view() == old(self).bbs_view().remove(id)
                    &&& final(self).label_map() == old(self).label_map().remove_keys(
                        bound_to(old(self).label_map(), id),
                    )
                    &&& increasing(strings_view(names@))
                    &&& strings_view(names@).to_set() == bound_to(old(self).label_map(), id)
                    &&& final(self).hint() == if id < old(self).hint() {
                        id
                    } else {
                        old(self).hint()
                    }
                    &&& unreferenced(final(self).blocks(), final(self).label_map(), id)
                    &&& wf(old(self).blocks(), old(self).label_map()) ==> wf(
                        final(self).blocks(),
                        final(self).label_map(),
                    )
                },
                Some(Err(e)) => {
                    &&& exists|id: BbId|
                        is_last(old(self).blocks(), id) && e.0@ == all_dangling(
                            old(self).blocks().remove(id),
                        )
                    &&& e.0@.len() > 0
                    &&& final(self).bbs_view() == old(self).bbs_view()
                    &&& final(self).label_map() == old(self).label_map()
                    &&& final(self).hint() == old(self).hint()
                },
            },
    {
        let keys = keys_sorted(&self.bbs);
        if keys.len() == 0 {
            proof {
                assert forall|k: BbId| !self.bbs@.contains_key(k) by {
                    if self.bbs@.contains_key(k) {
                        assert(keys@.to_set().contains(k));
                    }
                }
                assert(self.bbs@ =~= Map::<BbId, ABB<S, C>>::empty());
            }
            return None;
        }
        let last = keys[keys.len() - 1];
        proof {
            assert(keys@.to_set().contains(last));
            assert forall|k: BbId| #[trigger] self.blocks().contains_key(k) implies k <= last by {
                assert(keys@.to_set().contains(k));
                let j = choose|j: int| 0 <= j < keys@.len() && keys@[j] == k;
                if j < keys@.len() - 1 {
                    assert(keys@[j] < keys@[keys@.len() - 1]);
                }
            }
        }
        assert(self.bbs_view().contains_key(last));
        assert(is_last(self.blocks(), last));
        match self.remove(last) {
            Some(Ok((bb, names))) => Some(Ok((last, bb, names))),
            Some(Err(e)) => {
                assert(is_last(old(self).blocks(), last) && e.0@ == all_dangling(
                    old(self).blocks().remove(last),
                ));
                Some(Err(e))
            },
            None => {
                proof {
                    assert(false);
                }
                None
            },
        }
    }
}

} // verus!
