use yz_basic_block::jump::{IntoTargetsIter, Unconditional};
use yz_basic_block::{Arena, BasicBlock, BasicBlockInner};

/// A statement with a name and the blocks it refers to.
#[derive(Clone, Debug, PartialEq, Eq)]
struct Op(&'static str, Vec<usize>);

impl IntoTargetsIter for Op {
    type Target = usize;

    fn into_trgs_iter(&self) -> Vec<usize> {
        self.1.clone()
    }

    fn set_trgs(&mut self, t: &[usize]) {
        self.1 = t.to_vec();
    }
}

type OpArena = Arena<Op, Op>;
type OpBlock = BasicBlock<Op, Op, usize>;

fn block(stmts: Vec<Op>, cond: Option<Op>, next: Unconditional<usize>, public: bool) -> OpBlock {
    BasicBlock {
        inner: BasicBlockInner::Concrete { statements: stmts, condjmp: cond, next },
        is_public: public,
    }
}

fn plain(next: Unconditional<usize>, public: bool) -> OpBlock {
    block(Vec::new(), None, next, public)
}

fn op(name: &'static str) -> Op {
    Op(name, Vec::new())
}

/// Builds an arena from blocks given with their ids.
fn arena_of(blocks: Vec<(usize, OpBlock)>) -> OpArena {
    let mut arena = OpArena::new();
    for (id, bb) in blocks {
        arena.bbs_mut().insert(id, bb);
    }
    arena
}

fn ids(arena: &OpArena) -> Vec<usize> {
    arena.bbs().keys().copied().collect()
}

#[test]
fn empty_arena_stays_empty() {
    let mut arena = OpArena::new();
    assert!(!arena.optimize());
    assert!(arena.is_empty());
    assert!(arena.check().is_ok());
}

#[test]
fn dead_block_is_removed_and_the_rest_is_kept() {
    let mut arena = arena_of(vec![
        (0, plain(Unconditional::Jump(1), true)),
        (1, plain(Unconditional::Halt, true)),
        (2, block(vec![op("x")], None, Unconditional::Return, false)),
    ]);
    arena.set_label("dead".into(), 2, false).unwrap();
    arena.set_label("main".into(), 0, false).unwrap();
    assert!(arena.check().is_ok());
    assert!(arena.optimize());
    assert_eq!(ids(&arena), vec![0, 1]);
    assert_eq!(arena.bbs()[&0], plain(Unconditional::Jump(1), true));
    assert_eq!(arena.bbs()[&1], plain(Unconditional::Halt, true));
    assert!(arena.label2bb("dead").is_none());
    assert_eq!(arena.labels_of_bb(0), vec!["main"]);
    assert!(arena.check().is_ok());
    assert!(!arena.optimize());
    assert_eq!(ids(&arena), vec![0, 1]);
}

#[test]
fn removed_id_is_free_again() {
    let mut arena = arena_of(vec![]);
    arena.push(plain(Unconditional::Halt, true)).unwrap();
    arena.push(plain(Unconditional::Halt, false)).unwrap();
    arena.push(plain(Unconditional::Halt, true)).unwrap();
    assert!(arena.optimize());
    assert_eq!(ids(&arena), vec![0, 2]);
    assert_eq!(arena.push(plain(Unconditional::Halt, true)).unwrap(), 1);
}

#[test]
fn tail_is_merged_into_its_head() {
    let mut arena = arena_of(vec![
        (0, block(vec![op("a"), op("b")], None, Unconditional::Jump(1), true)),
        (1, block(vec![op("c")], Some(Op("if", vec![0])), Unconditional::Return, false)),
    ]);
    arena.set_label("main".into(), 0, false).unwrap();
    arena.set_label("tail".into(), 1, false).unwrap();
    assert!(arena.optimize());
    assert_eq!(ids(&arena), vec![0]);
    assert_eq!(
        arena.bbs()[&0],
        block(vec![op("a"), op("b"), op("c")], Some(Op("if", vec![0])), Unconditional::Return, true)
    );
    assert_eq!(arena.labels_of_bb(0), vec!["main", "tail"]);
    assert!(arena.check().is_ok());
    assert!(!arena.optimize());
}

#[test]
fn merge_needs_a_single_plain_reference() {
    // the head has a conditional jump
    let mut arena = arena_of(vec![
        (0, block(vec![], Some(Op("if", vec![0])), Unconditional::Jump(1), true)),
        (1, plain(Unconditional::Return, false)),
    ]);
    assert!(!arena.optimize());
    // a statement of the head refers to the tail
    let mut arena = arena_of(vec![
        (0, block(vec![Op("call", vec![1])], None, Unconditional::Jump(1), true)),
        (1, plain(Unconditional::Return, false)),
    ]);
    assert!(!arena.optimize());
    // the tail is public
    let mut arena = arena_of(vec![
        (0, plain(Unconditional::Jump(1), true)),
        (1, plain(Unconditional::Return, true)),
    ]);
    assert!(!arena.optimize());
    // the tail refers to itself
    let mut arena = arena_of(vec![
        (0, plain(Unconditional::Jump(1), true)),
        (1, block(vec![op("x")], None, Unconditional::Jump(1), false)),
    ]);
    assert!(!arena.optimize());
    // two blocks refer to the tail
    let mut arena = arena_of(vec![
        (0, plain(Unconditional::Jump(2), true)),
        (1, plain(Unconditional::Jump(2), true)),
        (2, plain(Unconditional::Return, false)),
    ]);
    assert!(!arena.optimize());
    // the tail is a placeholder
    let mut arena = arena_of(vec![
        (0, plain(Unconditional::Jump(1), true)),
        (1, BasicBlock { inner: BasicBlockInner::Placeholder { is_extern: false }, is_public: false }),
    ]);
    arena.set_label("ext".into(), 1, false).unwrap();
    assert!(!arena.optimize());
    assert_eq!(arena.len(), 2);
    assert!(arena.check().is_ok());
}

#[test]
fn chain_with_rising_ids_takes_two_passes() {
    let mut arena = arena_of(vec![
        (0, block(vec![op("a")], None, Unconditional::Jump(1), true)),
        (1, block(vec![op("b")], None, Unconditional::Jump(2), false)),
        (2, block(vec![op("c")], None, Unconditional::Halt, false)),
    ]);
    assert!(arena.optimize());
    assert_eq!(ids(&arena), vec![0, 2]);
    assert_eq!(arena.bbs()[&0], block(vec![op("a"), op("b")], None, Unconditional::Jump(2), true));
    assert!(arena.check().is_ok());
    assert!(arena.optimize());
    assert_eq!(ids(&arena), vec![0]);
    assert_eq!(
        arena.bbs()[&0],
        block(vec![op("a"), op("b"), op("c")], None, Unconditional::Halt, true)
    );
    assert!(!arena.optimize());
}

#[test]
fn chain_with_falling_ids_takes_one_pass() {
    let mut arena = arena_of(vec![
        (0, block(vec![op("c")], None, Unconditional::Halt, false)),
        (1, block(vec![op("b")], None, Unconditional::Jump(0), false)),
        (2, block(vec![op("a")], None, Unconditional::Jump(1), true)),
    ]);
    arena.set_label("end".into(), 0, false).unwrap();
    assert!(arena.optimize());
    assert_eq!(ids(&arena), vec![2]);
    assert_eq!(
        arena.bbs()[&2],
        block(vec![op("a"), op("b"), op("c")], None, Unconditional::Halt, true)
    );
    assert_eq!(arena.labels_of_bb(2), vec!["end"]);
    assert!(!arena.optimize());
}

#[test]
fn private_head_with_two_sources_takes_its_tail() {
    let mut arena = arena_of(vec![
        (0, block(vec![op("a")], None, Unconditional::Jump(1), true)),
        (1, block(vec![op("h")], None, Unconditional::Jump(2), false)),
        (2, block(vec![op("t")], None, Unconditional::Return, false)),
        (3, block(vec![op("b")], None, Unconditional::Jump(1), true)),
    ]);
    assert!(arena.optimize());
    assert_eq!(ids(&arena), vec![0, 1, 3]);
    assert_eq!(arena.bbs()[&1], block(vec![op("h"), op("t")], None, Unconditional::Return, false));
    assert!(arena.check().is_ok());
    assert!(!arena.optimize());
}

#[test]
fn block_that_only_jumps_on_stays_and_is_referred_to() {
    let mut arena = arena_of(vec![
        (0, plain(Unconditional::Jump(2), true)),
        (1, plain(Unconditional::Jump(2), true)),
        (2, plain(Unconditional::Jump(3), false)),
        (3, plain(Unconditional::Halt, false)),
    ]);
    arena.set_label("two".into(), 2, false).unwrap();
    assert!(arena.check().is_ok());
    assert!(arena.optimize());
    assert_eq!(ids(&arena), vec![0, 1, 2]);
    assert_eq!(arena.bbs()[&0], plain(Unconditional::Jump(2), true));
    assert_eq!(arena.bbs()[&1], plain(Unconditional::Jump(2), true));
    assert_eq!(arena.bbs()[&2], plain(Unconditional::Halt, false));
    assert_eq!(arena.labels_of_bb(2), vec!["two"]);
    assert_eq!(reached(&arena), ids(&arena));
    assert!(arena.check().is_ok());
    assert!(!arena.optimize());
}

#[test]
fn merge_leaves_references_and_other_labels_alone() {
    let mut arena = arena_of(vec![
        (0, block(vec![op("a")], None, Unconditional::Jump(1), true)),
        (1, block(vec![Op("call", vec![2])], Some(Op("if", vec![2])), Unconditional::Jump(2), false)),
        (2, plain(Unconditional::Jump(3), false)),
        (3, plain(Unconditional::Halt, true)),
        (4, plain(Unconditional::Jump(2), true)),
    ]);
    arena.set_label("tail".into(), 1, false).unwrap();
    arena.set_label("two".into(), 2, false).unwrap();
    arena.set_label("three".into(), 3, false).unwrap();
    assert!(arena.check().is_ok());
    assert!(arena.optimize());
    assert_eq!(ids(&arena), vec![0, 2, 3, 4]);
    assert_eq!(
        arena.bbs()[&0],
        block(
            vec![op("a"), Op("call", vec![2])],
            Some(Op("if", vec![2])),
            Unconditional::Jump(2),
            true
        )
    );
    assert_eq!(arena.bbs()[&2], plain(Unconditional::Jump(3), false));
    assert_eq!(arena.bbs()[&4], plain(Unconditional::Jump(2), true));
    assert_eq!(arena.labels_of_bb(0), vec!["tail"]);
    assert_eq!(arena.labels_of_bb(2), vec!["two"]);
    assert_eq!(arena.labels_of_bb(3), vec!["three"]);
    assert_eq!(reached(&arena), ids(&arena));
    assert!(arena.check().is_ok());
    assert!(!arena.optimize());
}

#[test]
fn block_that_only_jumps_on_takes_its_tail() {
    let mut arena = arena_of(vec![
        (0, plain(Unconditional::Jump(1), true)),
        (1, plain(Unconditional::Jump(2), false)),
        (2, block(vec![op("x")], None, Unconditional::Halt, false)),
        (3, plain(Unconditional::Jump(1), true)),
    ]);
    assert!(arena.optimize());
    assert_eq!(ids(&arena), vec![0, 1, 3]);
    assert_eq!(arena.bbs()[&0], plain(Unconditional::Jump(1), true));
    assert_eq!(arena.bbs()[&3], plain(Unconditional::Jump(1), true));
    assert_eq!(arena.bbs()[&1], block(vec![op("x")], None, Unconditional::Halt, false));
    assert!(arena.check().is_ok());
    assert!(!arena.optimize());
}

#[test]
fn block_that_only_jumps_on_is_merged_into_its_one_source() {
    let mut arena = arena_of(vec![
        (0, block(vec![op("a")], None, Unconditional::Jump(1), true)),
        (1, plain(Unconditional::Jump(2), false)),
        (2, block(vec![op("x")], None, Unconditional::Halt, true)),
    ]);
    arena.set_label("hop".into(), 1, false).unwrap();
    assert!(arena.optimize());
    assert_eq!(ids(&arena), vec![0, 2]);
    assert_eq!(arena.bbs()[&0], block(vec![op("a")], None, Unconditional::Jump(2), true));
    assert_eq!(arena.labels_of_bb(0), vec!["hop"]);
    assert!(arena.check().is_ok());
    assert!(!arena.optimize());
}

#[test]
fn ring_of_jumps_comes_to_rest() {
    let mut arena = arena_of(vec![
        (0, plain(Unconditional::Jump(1), true)),
        (1, plain(Unconditional::Jump(2), false)),
        (2, plain(Unconditional::Jump(3), false)),
        (3, plain(Unconditional::Jump(1), false)),
    ]);
    assert!(arena.optimize());
    assert_eq!(ids(&arena), vec![0, 1, 3]);
    assert_eq!(arena.bbs()[&1], plain(Unconditional::Jump(3), false));
    assert!(arena.check().is_ok());
    assert!(arena.optimize());
    assert_eq!(ids(&arena), vec![0, 1]);
    assert_eq!(arena.bbs()[&1], plain(Unconditional::Jump(1), false));
    assert!(arena.check().is_ok());
    assert!(!arena.optimize());
    assert_eq!(ids(&arena), vec![0, 1]);
}

#[test]
fn placeholder_lives_by_reference_not_by_label() {
    let placeholder: OpBlock =
        BasicBlock { inner: BasicBlockInner::Placeholder { is_extern: true }, is_public: false };
    let mut arena = arena_of(vec![
        (0, block(vec![Op("call", vec![1])], None, Unconditional::Halt, true)),
        (1, placeholder.clone()),
        (2, placeholder.clone()),
    ]);
    arena.set_label("used".into(), 1, false).unwrap();
    arena.set_label("unused".into(), 2, false).unwrap();
    assert!(arena.check().is_ok());
    assert!(arena.optimize());
    assert_eq!(ids(&arena), vec![0, 1]);
    assert_eq!(arena.bbs()[&1], placeholder);
    assert_eq!(arena.labels_of_bb(1), vec!["used"]);
    assert!(arena.label2bb("unused").is_none());
    assert!(arena.check().is_ok());
}

#[test]
fn pass_without_change_leaves_every_block() {
    let blocks = vec![
        (0, block(vec![Op("call", vec![3])], Some(Op("if", vec![0])), Unconditional::Jump(3), true)),
        (3, block(vec![op("x")], None, Unconditional::Unknown, false)),
    ];
    let mut arena = arena_of(blocks.clone());
    arena.set_label("main".into(), 0, false).unwrap();
    assert!(!arena.optimize());
    let left: Vec<(usize, OpBlock)> = arena.bbs().iter().map(|(k, v)| (*k, v.clone())).collect();
    assert_eq!(left, blocks);
    assert_eq!(arena.labels_of_bb(0), vec!["main"]);
}

#[test]
fn dangling_reference_is_left_alone() {
    let mut arena = arena_of(vec![
        (0, plain(Unconditional::Jump(9), true)),
        (1, plain(Unconditional::Halt, false)),
    ]);
    assert!(arena.optimize());
    assert_eq!(ids(&arena), vec![0]);
    assert_eq!(arena.bbs()[&0], plain(Unconditional::Jump(9), true));
    assert_eq!(arena.check().unwrap_err().0, vec![(0, 9)]);
}

/// The ids that can be reached from a public block through the blocks.
fn reached(arena: &OpArena) -> Vec<usize> {
    let mut seen: Vec<usize> = Vec::new();
    let mut work: Vec<usize> =
        arena.bbs().iter().filter(|(_, bb)| bb.is_public).map(|(id, _)| *id).collect();
    while let Some(id) = work.pop() {
        if seen.contains(&id) {
            continue;
        }
        if let Some(bb) = arena.bbs().get(&id) {
            seen.push(id);
            work.extend(bb.inner.into_trgs_iter());
        }
    }
    seen.sort();
    seen
}

fn tangle() -> OpArena {
    let mut arena = arena_of(vec![
        (0, block(vec![Op("call", vec![4])], Some(Op("if", vec![2])), Unconditional::Jump(1), true)),
        (1, block(vec![op("a")], None, Unconditional::Jump(3), false)),
        (2, block(vec![op("b")], None, Unconditional::Jump(3), false)),
        (3, block(vec![op("c")], None, Unconditional::Jump(5), false)),
        (4, block(vec![op("d")], None, Unconditional::Return, false)),
        (5, block(vec![op("e")], None, Unconditional::Jump(6), false)),
        (6, block(vec![op("f")], None, Unconditional::Halt, false)),
        (7, block(vec![op("g")], None, Unconditional::Jump(8), false)),
        (8, block(vec![op("h")], None, Unconditional::Jump(7), false)),
        (9, block(vec![op("i")], None, Unconditional::Jump(0), false)),
    ]);
    arena.set_label("entry".into(), 0, false).unwrap();
    arena.set_label("loop".into(), 6, false).unwrap();
    arena.set_label("five".into(), 5, false).unwrap();
    arena.set_label("lost".into(), 8, false).unwrap();
    arena
}

#[test]
fn every_block_that_remains_can_be_reached() {
    let mut arena = tangle();
    assert!(arena.check().is_ok());
    assert_eq!(reached(&arena), vec![0, 1, 2, 3, 4, 5, 6]);
    assert!(arena.optimize());
    assert_eq!(reached(&arena), ids(&arena));
    assert!(arena.check().is_ok());
}

#[test]
fn passes_shrink_the_arena_until_nothing_changes() {
    let mut arena = tangle();
    let mut count = arena.len();
    let mut passes = 0;
    while arena.optimize() {
        assert!(arena.len() < count);
        count = arena.len();
        passes += 1;
        assert!(arena.check().is_ok());
        assert_eq!(reached(&arena), ids(&arena));
    }
    assert_eq!(passes, 2);
    assert_eq!(ids(&arena), vec![0, 1, 2, 3, 4]);
    assert_eq!(
        arena.bbs()[&3],
        block(vec![op("c"), op("e"), op("f")], None, Unconditional::Halt, false)
    );
    assert_eq!(arena.labels_of_bb(3), vec!["five", "loop"]);
    assert_eq!(arena.labels_of_bb(0), vec!["entry"]);
    assert!(arena.label2bb("lost").is_none());
    let before = format!("{:?}", arena);
    assert!(!arena.optimize());
    assert_eq!(format!("{:?}", arena), before);
}
