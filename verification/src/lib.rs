//! A control-flow-graph container: an arena of basic blocks addressed by
//! stable integer ids, with named entry points, integrity checking and a
//! pass that removes dead blocks and merges trivial ones.

use vstd::prelude::*;

pub mod arena;
pub mod bb;
pub mod graph;
pub mod helpers;
pub mod ids;
pub mod jump;
pub mod labels;
pub mod reach;

pub use arena::{Arena, OffendingIds, SetBbLabelError};
pub use bb::{BasicBlock, BasicBlockInner};

verus! {

/// Identifies a block within one arena.
pub type BbId = usize;

/// The name of a block.
pub type Label = std::borrow::Cow<'static, str>;

} // verus!
