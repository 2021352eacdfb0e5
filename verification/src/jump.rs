//! Exits of a basic block and the capability by which any statement or
//! condition type shows the block ids that it holds.

use core::marker::PhantomData;
use vstd::prelude::*;

verus! {

/// The exit that a block takes when no conditional jump fires.
#[derive(Clone, Copy, Debug, PartialEq, Eq, Hash)]
pub enum Unconditional<T> {
    Halt,
    Jump(T),
    Return,
    Unknown,
}

/// A statement or condition kind that holds no block id at all.
#[derive(Debug, PartialEq, Eq, Hash)]
pub struct Dummy<T>(pub PhantomData<T>);

impl<T> Clone for Dummy<T> {
    fn clone(&self) -> (r: Self)
        ensures
            r == *self,
    {
        Dummy(PhantomData)
    }
}

impl<T> Copy for Dummy<T> {

}

impl<T> Default for Dummy<T> {
    fn default() -> (r: Self)
        ensures
            r == Dummy::<T>(PhantomData),
    {
        Dummy(PhantomData)
    }
}

/// A type that can enumerate, and rewrite in place, the block ids embedded in
/// its values.
///
/// `targets` is the finite, deterministically ordered sequence of ids that a
/// value holds; `with_targets` is the value that differs from it in those ids
/// alone. An implementation states both. Where it leaves them at their
/// defaults, nothing is known of them beyond what the two methods promise.
pub trait IntoTargetsIter: Sized {
    type Target;

    /// The ids embedded in the value, in traversal order.
    open spec fn targets(&self) -> Seq<Self::Target> {
        arbitrary()
    }

    /// The value with its embedded ids replaced, position by position, by `t`.
    open spec fn with_targets(&self, t: Seq<Self::Target>) -> Self {
        arbitrary()
    }

    /// Immutable traversal: every embedded id, in order.
    fn into_trgs_iter(&self) -> (r: Vec<Self::Target>)
        ensures
            r@ == self.targets(),
    ;

    /// Mutable traversal: overwrites the embedded ids, in order, with `t`.
    fn set_trgs(&mut self, t: &[Self::Target])
        requires
            t@.len() == old(self).targets().len(),
        ensures
            *final(self) == old(self).with_targets(t@),
            final(self).targets() == t@,
    ;
}

impl<T> IntoTargetsIter for Dummy<T> {
    type Target = T;

    open spec fn targets(&self) -> Seq<T> {
        Seq::empty()
    }

    open spec fn with_targets(&self, t: Seq<T>) -> Self {
        *self
    }

    fn into_trgs_iter(&self) -> (r: Vec<T>) {
        Vec::new()
    }

    fn set_trgs(&mut self, t: &[T]) {
    }
}

impl<T: Copy> IntoTargetsIter for Unconditional<T> {
    type Target = T;

    open spec fn targets(&self) -> Seq<T> {
        match *self {
            Unconditional::Jump(t) => seq![t],
            _ => Seq::empty(),
        }
    }

    open spec fn with_targets(&self, t: Seq<T>) -> Self {
        match *self {
            Unconditional::Jump(_) => Unconditional::Jump(t[0]),
            other => other,
        }
    }

    fn into_trgs_iter(&self) -> (r: Vec<T>) {
        let mut r: Vec<T> = Vec::new();
        if let Unconditional::Jump(t) = self {
            r.push(*t);
        }
        r
    }

    fn set_trgs(&mut self, t: &[T]) {
        if let Unconditional::Jump(_) = self {
            *self = Unconditional::Jump(t[0]);
        }
    }
}

/// The ids of a sequence of values: the elements' own ids, concatenated in
/// element order.
pub open spec fn seq_targets<X: IntoTargetsIter>(s: Seq<X>) -> Seq<X::Target>
    decreases s.len(),
{
    if s.len() == 0 {
        Seq::empty()
    } else {
        seq_targets(s.drop_last()) + s.last().targets()
    }
}

/// The ids of an optional value: its own, or none.
pub open spec fn opt_targets<X: IntoTargetsIter>(o: Option<X>) -> Seq<X::Target> {
    match o {
        Some(x) => x.targets(),
        None => Seq::empty(),
    }
}

/// The sequence `s` with the ids of its elements replaced, position by
/// position over the whole concatenation, by `t`.
pub open spec fn seq_with_targets<X: IntoTargetsIter>(s: Seq<X>, t: Seq<X::Target>) -> Seq<X> {
    Seq::new(
        s.len(),
        |i: int|
            s[i].with_targets(
                t.subrange(
                    seq_targets(s.take(i)).len() as int,
                    seq_targets(s.take(i + 1)).len() as int,
                ),
            ),
    )
}

/// The optional value with its ids replaced by `t`.
pub open spec fn opt_with_targets<X: IntoTargetsIter>(o: Option<X>, t: Seq<X::Target>) -> Option<
    X,
> {
    match o {
        Some(x) => Some(x.with_targets(t)),
        None => None,
    }
}

impl<X: IntoTargetsIter> IntoTargetsIter for Option<X> {
    type Target = X::Target;

    open spec fn targets(&self) -> Seq<X::Target> {
        opt_targets(*self)
    }

    open spec fn with_targets(&self, t: Seq<X::Target>) -> Self {
        opt_with_targets(*self, t)
    }

    fn into_trgs_iter(&self) -> (r: Vec<X::Target>) {
        match self {
            Some(x) => x.into_trgs_iter(),
            None => Vec::new(),
        }
    }

    fn set_trgs(&mut self, t: &[X::Target]) {
        if let Some(x) = self {
            x.set_trgs(t);
        }
    }
}

/// Taking one more element of a sequence adds that element's ids at the end.
pub proof fn lemma_seq_targets_take<X: IntoTargetsIter>(s: Seq<X>, i: int)
    requires
        0 <= i < s.len(),
    ensures
        seq_targets(s.take(i + 1)) == seq_targets(s.take(i)) + s[i].targets(),
{
    assert(s.take(i + 1).drop_last() =~= s.take(i));
    assert(s.take(i + 1).last() == s[i]);
}

/// The ids of a concatenation are the concatenation of the ids.
pub proof fn lemma_seq_targets_add<X: IntoTargetsIter>(a: Seq<X>, b: Seq<X>)
    ensures
        seq_targets(a + b) == seq_targets(a) + seq_targets(b),
    decreases b.len(),
{
    if b.len() == 0 {
        assert(a + b =~= a);
        assert(seq_targets(a) + seq_targets(b) =~= seq_targets(a));
    } else {
        lemma_seq_targets_add(a, b.drop_last());
        assert((a + b).drop_last() =~= a + b.drop_last());
        assert((a + b).last() == b.last());
        assert(seq_targets(a) + (seq_targets(b.drop_last()) + b.last().targets()) =~= (seq_targets(
            a,
        ) + seq_targets(b.drop_last())) + b.last().targets());
    }
}

/// Every embedded id of a sequence of values, in order.
pub fn seq_trgs<X: IntoTargetsIter>(s: &Vec<X>) -> (r: Vec<X::Target>)
    ensures
        r@ == seq_targets(s@),
{
    let mut r: Vec<X::Target> = Vec::new();
    let mut i: usize = 0;
    while i < s.len()
        invariant
            i <= s.len(),
            r@ == seq_targets(s@.take(i as int)),
        decreases s.len() - i,
    {
        let mut part = s[i].into_trgs_iter();
        proof {
            lemma_seq_targets_take(s@, i as int);
        }
        r.append(&mut part);
        i += 1;
    }
    assert(s@.take(s.len() as int) =~= s@);
    r
}

/// Overwrites the embedded ids of a sequence of values, in order, with `t`.
pub fn seq_set_trgs<X: IntoTargetsIter>(s: &mut Vec<X>, t: &[X::Target])
    requires
        t@.len() == seq_targets(old(s)@).len(),
    ensures
        final(s)@ == seq_with_targets(old(s)@, t@),
        seq_targets(final(s)@) == t@,
{
    let total = t.len();
    let mut i: usize = 0;
    let mut at: usize = 0;
    while i < s.len()
        invariant
            i <= s.len(),
            s.len() == old(s).len(),
            total == t@.len(),
            at == seq_targets(old(s)@.take(i as int)).len(),
            t@.len() == seq_targets(old(s)@).len(),
            forall|k: int| i <= k < s.len() ==> s@[k] == old(s)@[k],
            forall|k: int| 0 <= k < i ==> s@[k] == seq_with_targets(old(s)@, t@)[k],
            seq_targets(s@.take(i as int)) == t@.take(at as int),
        decreases s.len() - i,
    {
        proof {
            lemma_seq_targets_take(old(s)@, i as int);
            lemma_seq_targets_take(s@, i as int);
            lemma_seq_targets_add(old(s)@.take(i as int + 1), old(s)@.skip(i as int + 1));
            assert(old(s)@.take(i as int + 1) + old(s)@.skip(i as int + 1) =~= old(s)@);
        }
        let n = s[i].into_trgs_iter().len();
        assert(at + n == seq_targets(old(s)@.take(i as int + 1)).len());
        assert(seq_targets(old(s)@).len() == seq_targets(old(s)@.take(i as int + 1)).len()
            + seq_targets(old(s)@.skip(i as int + 1)).len());
        let part = vstd::slice::slice_subrange(t, at, at + n);
        let ghost before = s@;
        s[i].set_trgs(part);
        proof {
            assert(s@ == before.update(i as int, s@[i as int]));
            assert(s@.take(i as int) =~= before.take(i as int));
            lemma_seq_targets_take(s@, i as int);
            assert(t@.take(at as int) + t@.subrange(at as int, at + n) =~= t@.take(at + n));
        }
        at = at + n;
        i += 1;
    }
    proof {
        assert(s@.take(s.len() as int) =~= s@);
        assert(old(s)@.take(s.len() as int) =~= old(s)@);
        assert(t@.take(at as int) =~= t@);
        assert(s@ =~= seq_with_targets(old(s)@, t@));
    }
}

} // verus!
