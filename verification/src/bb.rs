//! Basic blocks: one node of the control-flow graph, concrete or a
//! placeholder, and their mathematical views.

use crate::jump::{
    opt_targets, opt_with_targets, seq_set_trgs, seq_targets, seq_trgs, seq_with_targets,
    IntoTargetsIter, Unconditional,
};
use vstd::prelude::*;

verus! {

/// What a block holds.
#[derive(Clone, Debug, PartialEq, Eq)]
pub enum BasicBlockInner<S, C, T> {
    Concrete { statements: Vec<S>, condjmp: Option<C>, next: Unconditional<T> },
    /// Stands for a block that is defined elsewhere and reached by name only.
    Placeholder { is_extern: bool },
}

/// A block: its content and whether it is an entry point, which keeps it
/// from being removed as dead.
#[derive(Clone, Debug, PartialEq, Eq)]
pub struct BasicBlock<S, C, T> {
    pub inner: BasicBlockInner<S, C, T>,
    pub is_public: bool,
}

/// The content of a block as a mathematical value.
pub enum InnerView<S, C, T> {
    Concrete { statements: Seq<S>, condjmp: Option<C>, next: Unconditional<T> },
    Placeholder { is_extern: bool },
}

/// A block as a mathematical value.
pub struct BlockView<S, C, T> {
    pub inner: InnerView<S, C, T>,
    pub is_public: bool,
}

impl<S, C, T> View for BasicBlockInner<S, C, T> {
    type V = InnerView<S, C, T>;

    open spec fn view(&self) -> InnerView<S, C, T> {
        match *self {
            BasicBlockInner::Concrete { statements, condjmp, next } => InnerView::Concrete {
                statements: statements@,
                condjmp,
                next,
            },
            BasicBlockInner::Placeholder { is_extern } => InnerView::Placeholder { is_extern },
        }
    }
}

impl<S, C, T> View for BasicBlock<S, C, T> {
    type V = BlockView<S, C, T>;

    open spec fn view(&self) -> BlockView<S, C, T> {
        BlockView { inner: self.inner@, is_public: self.is_public }
    }
}

impl<S, C, T> InnerView<S, C, T> where
    S: IntoTargetsIter<Target = T>,
    C: IntoTargetsIter<Target = T>,
    T: Copy,
 {
    /// Every id that the content refers to: those of the statements in
    /// sequence order, then that of the conditional jump, then the exit's.
    pub open spec fn targets(self) -> Seq<T> {
        match self {
            InnerView::Concrete { statements, condjmp, next } => seq_targets(statements)
                + opt_targets(condjmp) + next.targets(),
            InnerView::Placeholder { .. } => Seq::empty(),
        }
    }

    /// The content with its ids replaced, position by position, by `t`.
    pub open spec fn with_targets(self, t: Seq<T>) -> Self {
        match self {
            InnerView::Concrete { statements, condjmp, next } => {
                let a = seq_targets(statements).len() as int;
                let b = a + opt_targets(condjmp).len();
                InnerView::Concrete {
                    statements: seq_with_targets(statements, t.subrange(0, a)),
                    condjmp: opt_with_targets(condjmp, t.subrange(a, b)),
                    next: next.with_targets(t.subrange(b, t.len() as int)),
                }
            },
            InnerView::Placeholder { .. } => self,
        }
    }
}

impl<S, C, T> BlockView<S, C, T> where
    S: IntoTargetsIter<Target = T>,
    C: IntoTargetsIter<Target = T>,
    T: Copy,
 {
    /// Every id that the block refers to, in traversal order.
    pub open spec fn targets(self) -> Seq<T> {
        self.inner.targets()
    }

    /// The block with its ids replaced, position by position, by `t`.
    pub open spec fn with_targets(self, t: Seq<T>) -> Self {
        BlockView { inner: self.inner.with_targets(t), is_public: self.is_public }
    }
}

impl<S, C, T> Default for BasicBlockInner<S, C, T> {
    fn default() -> (r: Self)
        ensures
            r@ == (InnerView::<S, C, T>::Placeholder { is_extern: false }),
    {
        BasicBlockInner::Placeholder { is_extern: false }
    }
}

impl<S, C, T> BasicBlockInner<S, C, T> {
    /// Whether the content is that of a concrete block.
    pub fn is_concrete(&self) -> (r: bool)
        ensures
            r == (self@ is Concrete),
    {
        match self {
            BasicBlockInner::Concrete { .. } => true,
            BasicBlockInner::Placeholder { .. } => false,
        }
    }

    /// Whether the content is a placeholder.
    pub fn is_placeholder(&self) -> (r: bool)
        ensures
            r == (self@ is Placeholder),
    {
        match self {
            BasicBlockInner::Concrete { .. } => false,
            BasicBlockInner::Placeholder { .. } => true,
        }
    }
}

impl<S, C, T> BasicBlockInner<S, C, T> where
    S: IntoTargetsIter<Target = T>,
    C: IntoTargetsIter<Target = T>,
    T: Copy,
 {
    /// Immutable traversal: every id that the content refers to, in order.
    pub fn into_trgs_iter(&self) -> (r: Vec<T>)
        ensures
            r@ == self@.targets(),
    {
        match self {
            BasicBlockInner::Concrete { statements, condjmp, next } => {
                let mut r = seq_trgs(statements);
                let mut part = condjmp.into_trgs_iter();
                r.append(&mut part);
                let mut last = next.into_trgs_iter();
                r.append(&mut last);
                r
            },
            BasicBlockInner::Placeholder { .. } => Vec::new(),
        }
    }

    /// Mutable traversal: overwrites the ids that the content refers to, in
    /// order, with `t`.
    pub fn set_trgs(&mut self, t: &[T])
        requires
            t@.len() == old(self)@.targets().len(),
        ensures
            final(self)@ == old(self)@.with_targets(t@),
            final(self)@.targets() == t@,
    {
        let total = t.len();
        match self {
            BasicBlockInner::Concrete { statements, condjmp, next } => {
                let a = seq_trgs(statements).len();
                seq_set_trgs(statements, vstd::slice::slice_subrange(t, 0, a));
                let b = a + condjmp.into_trgs_iter().len();
                condjmp.set_trgs(vstd::slice::slice_subrange(t, a, b));
                next.set_trgs(vstd::slice::slice_subrange(t, b, total));
                assert(t@.subrange(0, a as int) + t@.subrange(a as int, b as int) + t@.subrange(
                    b as int,
                    total as int,
                ) =~= t@);
            },
            BasicBlockInner::Placeholder { .. } => {
                assert(t@ =~= Seq::empty());
            },
        }
    }
}

impl<S, C, T> core::ops::Deref for BasicBlock<S, C, T> {
    type Target = BasicBlockInner<S, C, T>;

    fn deref(&self) -> (r: &BasicBlockInner<S, C, T>)
        ensures
            *r == self.inner,
    {
        &self.inner
    }
}

impl<S, C, T> core::ops::DerefMut for BasicBlock<S, C, T> {
    fn deref_mut(&mut self) -> (r: &mut BasicBlockInner<S, C, T>)
        ensures
            *r == old(self).inner,
            *final(self) == (BasicBlock { inner: *final(r), is_public: old(self).is_public }),
    {
        &mut self.inner
    }
}

} // verus!
