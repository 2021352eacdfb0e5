//! The arena: the blocks, keyed by id, and the label table.

use crate::bb::{BasicBlock, BasicBlockInner};
use crate::graph::{Blocks, Labels};
use crate::ids::keys_sorted;
use crate::labels::{bound_to, increasing, strs_view, LabelMap};
use crate::{BbId, Label};
use std::borrow::Cow;
use std::collections::BTreeMap;
use vstd::prelude::*;

pub mod check;
pub mod laws;
pub mod optimize;

verus! {

/// Why a label could not be bound.
#[derive(Clone, Debug)]
pub enum SetBbLabelError {
    /// The target id names no block of the arena.
    InvalidId(BbId),
    /// The label is bound already, to `orig_target`.
    LabelAlreadyExists { orig_target: BbId },
}

/// The references that break the arena's integrity, as pairs `(from, to)`.
#[derive(Clone, Debug)]
pub struct OffendingIds(pub Vec<(BbId, BbId)>);

/// A block of an arena.
pub type ABB<S, C> = BasicBlock<S, C, BbId>;

/// The blocks of a control-flow graph, each under a stable id, and the
/// labels that name some of them.
#[derive(Debug)]
pub struct Arena<S, C> {
    bbs: BTreeMap<BbId, ABB<S, C>>,
    labels: LabelMap,
    // `push` looks for a free id from here on.
    cache_ins_start: usize,
}

/// The views of the blocks of a map.
pub open spec fn views<S, C>(bbs: Map<BbId, ABB<S, C>>) -> Blocks<S, C> {
    bbs.map_values(|b: ABB<S, C>| b@)
}

/// The views of the blocks of a map stand under the same ids.
pub proof fn lemma_views<S, C>(bbs: Map<BbId, ABB<S, C>>)
    ensures
        forall|id: BbId| #[trigger] views(bbs).contains_key(id) <==> bbs.contains_key(id),
        forall|id: BbId| bbs.contains_key(id) ==> #[trigger] views(bbs)[id] == bbs[id]@,
{
}

impl<S, C> Default for Arena<S, C> {
    fn default() -> (r: Self)
        ensures
            r.bbs_view() == Map::<BbId, ABB<S, C>>::empty(),
            r.label_map() == Map::<Seq<char>, BbId>::empty(),
            r.hint() == 0,
    {
        Arena { bbs: BTreeMap::new(), labels: LabelMap::new(), cache_ins_start: 0 }
    }
}

impl<S, C> Arena<S, C> {
    /// The blocks as they are stored, by id.
    pub closed spec fn bbs_view(&self) -> Map<BbId, ABB<S, C>> {
        self.bbs@
    }

    /// The blocks as mathematical values, by id.
    pub open spec fn blocks(&self) -> Blocks<S, C> {
        views(self.bbs_view())
    }

    /// The labels: name to block id.
    pub closed spec fn label_map(&self) -> Labels {
        self.labels@
    }

    /// The id from which `push` looks for a free one.
    pub closed spec fn hint(&self) -> usize {
        self.cache_ins_start
    }

    /// An empty arena.
    pub fn new() -> (r: Self)
        ensures
            r.bbs_view() == Map::<BbId, ABB<S, C>>::empty(),
            r.label_map() == Map::<Seq<char>, BbId>::empty(),
            r.hint() == 0,
    {
        Arena { bbs: BTreeMap::new(), labels: LabelMap::new(), cache_ins_start: 0 }
    }

    /// The number of blocks.
    pub fn len(&self) -> (r: usize)
        ensures
            r == self.bbs_view().len(),
            self.bbs_view().dom().finite(),
    {
        self.bbs.len()
    }

    /// Whether the arena holds no block.
    pub fn is_empty(&self) -> (r: bool)
        ensures
            r == (self.bbs_view().len() == 0),
            self.bbs_view().dom().finite(),
    {
        self.bbs.len() == 0
    }

    /// Read access to the blocks.
    pub fn bbs(&self) -> (r: &BTreeMap<BbId, ABB<S, C>>)
        ensures
            r@ == self.bbs_view(),
    {
        &self.bbs
    }

    /// Write access to the blocks. What is done through it is not checked:
    /// the arena is sound again once `check` has said so.
    pub fn bbs_mut(&mut self) -> (r: &mut BTreeMap<BbId, ABB<S, C>>)
        ensures
            r@ == old(self).bbs_view(),
            final(self).bbs_view() == final(r)@,
            final(self).label_map() == old(self).label_map(),
            final(self).hint() == old(self).hint(),
    {
        &mut self.bbs
    }

    /// Read access to the label table.
    pub fn labels(&self) -> (r: &LabelMap)
        ensures
            r@ == self.label_map(),
    {
        &self.labels
    }

    /// The labels bound to the block `bbid`, in increasing order.
    pub fn labels_of_bb(&self, bbid: BbId) -> (r: Vec<&str>)
        ensures
            increasing(strs_view(r@)),
            strs_view(r@).to_set() == bound_to(self.label_map(), bbid),
    {
        crate::labels::labels_of_bb(&self.labels, bbid)
    }

    /// The block that `label` names, with its id.
    pub fn label2bb(&self, label: &str) -> (r: Option<(BbId, &ABB<S, C>)>)
        ensures
            match r {
                Some((id, bb)) => self.label_map().get(label@) == Some(id)
                    && self.bbs_view().contains_key(id) && *bb == self.bbs_view()[id],
                None => self.label_map().get(label@) matches Some(id) ==> !self.bbs_view().contains_key(
                    id,
                ),
            },
    {
        if let Some(bbid) = self.labels.get(label) {
            if let Some(bb) = self.bbs.get(&bbid) {
                return Some((bbid, bb));
            }
        }
        None
    }

    /// Binds `label` to the block `target`.
    ///
    /// Fails with `InvalidId` if `target` is no block, and with
    /// `LabelAlreadyExists` if the label is bound and `overwrite` is not
    /// set; the arena is then as it was. Otherwise returns the id that the
    /// label was bound to before, if any.
    pub fn set_label(&mut self, label: Label, target: BbId, overwrite: bool) -> (r: Result<
        Option<BbId>,
        SetBbLabelError,
    >)
        ensures
            final(self).bbs_view() == old(self).bbs_view(),
            final(self).hint() == old(self).hint(),
            match r {
                Ok(prev) => {
                    &&& old(self).bbs_view().contains_key(target)
                    &&& prev == old(self).label_map().get(label@)
                    &&& prev is Some ==> overwrite
                    &&& final(self).label_map() == old(self).label_map().insert(label@, target)
                },
                Err(SetBbLabelError::InvalidId(id)) => {
                    &&& id == target
                    &&& !old(self).bbs_view().contains_key(target)
                    &&& final(self).label_map() == old(self).label_map()
                },
                Err(SetBbLabelError::LabelAlreadyExists { orig_target }) => {
                    &&& old(self).bbs_view().contains_key(target)
                    &&& !overwrite
                    &&& old(self).label_map().get(label@) == Some(orig_target)
                    &&& final(self).label_map() == old(self).label_map()
                },
            },
    {
        if self.bbs.get(&target).is_none() {
            return Err(SetBbLabelError::InvalidId(target));
        }
        let name = match label {
            Cow::Borrowed(s) => s.to_owned(),
            Cow::Owned(s) => s,
        };
        crate::labels::set_label(&mut self.labels, name, target, overwrite)
    }

    /// Gives back memory that the statements of the blocks hold in reserve.
    /// No block and no label changes.
    pub fn shrink_to_fit(&mut self)
        ensures
            final(self).blocks() == old(self).blocks(),
            final(self).label_map() == old(self).label_map(),
            final(self).hint() == old(self).hint(),
    {
        let keys = keys_sorted(&self.bbs);
        let mut i: usize = 0;
        while i < keys.len()
            invariant
                i <= keys.len(),
                keys@.to_set() == self.bbs@.dom(),
                views(self.bbs@) == views(old(self).bbs@),
                self.labels == old(self).labels,
                self.cache_ins_start == old(self).cache_ins_start,
            decreases keys.len() - i,
        {
            let k = keys[i];
            assert(keys@.to_set().contains(k));
            let ghost before = self.bbs@;
            if let Some(mut bb) = self.bbs.remove(&k) {
                let ghost was = bb@;
                if let BasicBlockInner::Concrete { statements, .. } = &mut bb.inner {
                    shrink(statements);
                }
                assert(bb@ == was);
                self.bbs.insert(k, bb);
                assert(views(self.bbs@) =~= views(before));
            }
            i += 1;
        }
    }
}

/// Calls `Vec::shrink_to_fit`, which gives back the capacity that the vector
/// does not use and leaves its elements as they are.
#[verifier::external_body]
fn shrink<T>(v: &mut Vec<T>)
    ensures
        final(v)@ == old(v)@,
{
    v.shrink_to_fit();
}

} // verus!
