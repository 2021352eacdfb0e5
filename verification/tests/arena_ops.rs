use yz_basic_block::arena::check::check_finish;
use yz_basic_block::jump::{Dummy, IntoTargetsIter, Unconditional};
use yz_basic_block::{Arena, BasicBlock, BasicBlockInner, SetBbLabelError};

/// A statement that refers to any number of blocks.
#[derive(Clone, Debug, PartialEq, Eq)]
struct Refs(Vec<usize>);

impl IntoTargetsIter for Refs {
    type Target = usize;

    fn into_trgs_iter(&self) -> Vec<usize> {
        self.0.clone()
    }

    fn set_trgs(&mut self, t: &[usize]) {
        self.0 = t.to_vec();
    }
}

type RefArena = Arena<Refs, Refs>;

fn block(stmts: Vec<Refs>, cond: Option<Refs>, next: Unconditional<usize>, public: bool) -> BasicBlock<Refs, Refs, usize> {
    BasicBlock {
        inner: BasicBlockInner::Concrete { statements: stmts, condjmp: cond, next },
        is_public: public,
    }
}

fn plain(next: Unconditional<usize>, public: bool) -> BasicBlock<Refs, Refs, usize> {
    block(Vec::new(), None, next, public)
}

#[test]
fn new_arena_is_empty() {
    let arena = RefArena::new();
    assert!(arena.is_empty());
    assert_eq!(arena.len(), 0);
    assert!(arena.labels().is_empty());
    assert_eq!(arena.labels().len(), 0);
    assert!(arena.bbs().is_empty());
    let other: RefArena = Default::default();
    assert!(other.is_empty());
}

#[test]
fn push_assigns_ids_in_order() {
    let mut arena = RefArena::new();
    assert_eq!(arena.push(plain(Unconditional::Halt, true)).unwrap(), 0);
    assert_eq!(arena.push(plain(Unconditional::Jump(0), false)).unwrap(), 1);
    assert_eq!(arena.push(plain(Unconditional::Jump(2), false)).unwrap(), 2);
    assert_eq!(arena.len(), 3);
    assert!(!arena.is_empty());
    assert!(arena.check().is_ok());
}

#[test]
fn push_refuses_target_two_past_the_end() {
    let mut arena = RefArena::new();
    arena.push(plain(Unconditional::Halt, true)).unwrap();
    arena.push(plain(Unconditional::Halt, true)).unwrap();
    let bb = plain(Unconditional::Jump(4), false);
    let (back, errs) = arena.push(bb.clone()).unwrap_err();
    assert_eq!(back, bb);
    assert_eq!(errs.0, vec![(2, 4)]);
    assert_eq!(arena.len(), 2);
    assert!(arena.bbs().get(&2).is_none());
    assert!(arena.check().is_ok());
}

#[test]
fn push_lists_each_bad_target_once_in_order() {
    let mut arena = RefArena::new();
    arena.push(plain(Unconditional::Halt, true)).unwrap();
    let bb = block(
        vec![Refs(vec![9, 0, 7]), Refs(vec![7, 1])],
        Some(Refs(vec![9, 3])),
        Unconditional::Jump(5),
        false,
    );
    let (back, errs) = arena.push(bb.clone()).unwrap_err();
    assert_eq!(back, bb);
    assert_eq!(errs.0, vec![(1, 3), (1, 5), (1, 7), (1, 9)]);
    assert_eq!(arena.len(), 1);
}

#[test]
fn push_accepts_a_block_that_refers_to_itself() {
    let mut arena = RefArena::new();
    assert_eq!(arena.push(plain(Unconditional::Jump(0), true)).unwrap(), 0);
    assert!(arena.check().is_ok());
}

#[test]
fn push_reuses_the_smallest_free_id() {
    let mut arena = RefArena::new();
    for _ in 0..4 {
        arena.push(plain(Unconditional::Halt, true)).unwrap();
    }
    assert!(matches!(arena.remove(1), Some(Ok(_))));
    assert!(matches!(arena.remove(2), Some(Ok(_))));
    assert_eq!(arena.push(plain(Unconditional::Halt, true)).unwrap(), 1);
    assert_eq!(arena.push(plain(Unconditional::Halt, true)).unwrap(), 2);
    assert_eq!(arena.push(plain(Unconditional::Halt, true)).unwrap(), 4);
}

#[test]
fn remove_of_missing_block_is_none() {
    let mut arena = RefArena::new();
    arena.push(plain(Unconditional::Halt, true)).unwrap();
    assert!(arena.remove(3).is_none());
    assert_eq!(arena.len(), 1);
}

#[test]
fn remove_returns_block_and_labels_in_order() {
    let mut arena = RefArena::new();
    let a = arena.push(plain(Unconditional::Halt, true)).unwrap();
    let b = arena.push(plain(Unconditional::Return, false)).unwrap();
    arena.set_label("zeta".into(), b, false).unwrap();
    arena.set_label("alpha".into(), b, false).unwrap();
    arena.set_label("main".into(), a, false).unwrap();
    arena.set_label("beta".into(), b, false).unwrap();
    let (bb, names) = arena.remove(b).unwrap().unwrap();
    assert_eq!(bb, plain(Unconditional::Return, false));
    assert_eq!(names, vec!["alpha".to_string(), "beta".to_string(), "zeta".to_string()]);
    assert_eq!(arena.len(), 1);
    assert_eq!(arena.labels().len(), 1);
    assert!(arena.label2bb("alpha").is_none());
    assert!(arena.labels_of_bb(b).is_empty());
    assert_eq!(arena.labels_of_bb(a), vec!["main"]);
    assert!(arena.check().is_ok());
}

#[test]
fn remove_fails_while_referenced_and_changes_nothing() {
    let mut arena = RefArena::new();
    arena.push(plain(Unconditional::Halt, true)).unwrap();
    arena
        .push(block(vec![Refs(vec![0, 0])], Some(Refs(vec![1])), Unconditional::Jump(0), true))
        .unwrap();
    arena.push(plain(Unconditional::Jump(0), true)).unwrap();
    arena.set_label("zero".into(), 0, false).unwrap();
    let errs = arena.remove(0).unwrap().unwrap_err();
    assert_eq!(errs.0, vec![(1, 0), (1, 0), (1, 0), (2, 0)]);
    assert_eq!(arena.len(), 3);
    assert_eq!(arena.bbs()[&0], plain(Unconditional::Halt, true));
    assert_eq!(arena.labels_of_bb(0), vec!["zero"]);
    assert!(arena.check().is_ok());
}

#[test]
fn pop_takes_the_block_with_the_greatest_id() {
    let mut arena = RefArena::new();
    assert!(arena.pop().is_none());
    arena.push(plain(Unconditional::Halt, true)).unwrap();
    arena.push(plain(Unconditional::Jump(0), false)).unwrap();
    arena.set_label("tail".into(), 1, false).unwrap();
    let (id, bb, names) = arena.pop().unwrap().unwrap();
    assert_eq!(id, 1);
    assert_eq!(bb, plain(Unconditional::Jump(0), false));
    assert_eq!(names, vec!["tail".to_string()]);
    assert_eq!(arena.len(), 1);
    arena.push(plain(Unconditional::Jump(0), false)).unwrap();
    arena.bbs_mut().get_mut(&0).unwrap().inner = BasicBlockInner::Concrete {
        statements: Vec::new(),
        condjmp: None,
        next: Unconditional::Jump(1),
    };
    let errs = arena.pop().unwrap().unwrap_err();
    assert_eq!(errs.0, vec![(0, 1)]);
    assert_eq!(arena.len(), 2);
}

#[test]
fn set_label_reports_each_error() {
    let mut arena = RefArena::new();
    let a = arena.push(plain(Unconditional::Halt, true)).unwrap();
    let b = arena.push(plain(Unconditional::Halt, true)).unwrap();
    assert!(matches!(arena.set_label("main".into(), a, false), Ok(None)));
    assert!(matches!(
        arena.set_label("main".into(), a, false),
        Err(SetBbLabelError::LabelAlreadyExists { orig_target: 0 })
    ));
    assert!(matches!(
        arena.set_label("main".into(), b, false),
        Err(SetBbLabelError::LabelAlreadyExists { orig_target: 0 })
    ));
    assert!(matches!(arena.set_label("main".into(), 7, true), Err(SetBbLabelError::InvalidId(7))));
    assert!(matches!(arena.set_label("other".into(), 7, false), Err(SetBbLabelError::InvalidId(7))));
    assert_eq!(arena.label2bb("main").unwrap().0, a);
    assert!(matches!(arena.set_label("main".into(), b, true), Ok(Some(0))));
    assert_eq!(arena.label2bb("main").unwrap().0, b);
    assert!(matches!(arena.set_label("main".into(), b, true), Ok(Some(1))));
    assert_eq!(arena.labels().len(), 1);
}

#[test]
fn labels_are_kept_in_byte_order() {
    let mut arena = RefArena::new();
    let a = arena.push(plain(Unconditional::Halt, true)).unwrap();
    for name in ["m", "b", "zz", "a", "ab", "", "é", "z", "B"] {
        arena.set_label(name.to_string().into(), a, false).unwrap();
    }
    let mut expected: Vec<&str> = vec!["m", "b", "zz", "a", "ab", "", "é", "z", "B"];
    expected.sort();
    assert_eq!(arena.labels_of_bb(a), expected);
    let stored: Vec<&str> = arena.labels().entries().iter().map(|e| e.0.as_str()).collect();
    assert_eq!(stored, expected);
    assert_eq!(arena.labels().get("ab"), Some(a));
    assert_eq!(arena.labels().get("abc"), None);
    assert!(arena.labels().is_bound(a));
    assert!(!arena.labels().is_bound(5));
    assert_eq!(arena.labels().targets(), vec![a; 9]);
}

#[test]
fn label2bb_finds_the_block() {
    let mut arena = RefArena::new();
    arena.push(plain(Unconditional::Halt, true)).unwrap();
    let b = arena.push(plain(Unconditional::Return, false)).unwrap();
    arena.set_label("ret".into(), b, false).unwrap();
    let (id, bb) = arena.label2bb("ret").unwrap();
    assert_eq!(id, b);
    assert_eq!(*bb, plain(Unconditional::Return, false));
    assert!(arena.label2bb("nope").is_none());
    arena.bbs_mut().remove(&b);
    assert!(arena.label2bb("ret").is_none());
}

#[test]
fn check_lists_what_offends() {
    let mut arena = RefArena::new();
    arena.push(plain(Unconditional::Halt, true)).unwrap();
    arena.push(plain(Unconditional::Halt, true)).unwrap();
    arena.push(plain(Unconditional::Halt, true)).unwrap();
    arena.set_label("two".into(), 2, false).unwrap();
    arena.bbs_mut().remove(&2);
    arena.bbs_mut().insert(1, block(vec![Refs(vec![8, 2, 8])], None, Unconditional::Jump(1), true));
    arena.bbs_mut().insert(
        5,
        BasicBlock { inner: BasicBlockInner::Placeholder { is_extern: true }, is_public: false },
    );
    let errs = arena.check().unwrap_err();
    assert_eq!(errs.0, vec![(1, 2), (1, 8), (2, 2), (5, 5)]);
    arena.set_label("ext".into(), 5, false).unwrap();
    let errs = arena.check().unwrap_err();
    assert_eq!(errs.0, vec![(1, 2), (1, 8), (2, 2)]);
}

#[test]
fn shrink_to_fit_changes_nothing() {
    let mut arena = RefArena::new();
    let mut stmts = Vec::with_capacity(64);
    stmts.push(Refs(vec![0]));
    arena.push(block(stmts, None, Unconditional::Halt, true)).unwrap();
    arena.set_label("main".into(), 0, false).unwrap();
    arena.shrink_to_fit();
    assert_eq!(arena.bbs()[&0], block(vec![Refs(vec![0])], None, Unconditional::Halt, true));
    assert_eq!(arena.labels_of_bb(0), vec!["main"]);
    if let BasicBlockInner::Concrete { statements, .. } = &arena.bbs()[&0].inner {
        assert!(statements.capacity() < 64);
    } else {
        unreachable!();
    }
}

#[test]
fn dummy_arena_works_without_statements() {
    let mut arena = Arena::<Dummy<usize>, Dummy<usize>>::new();
    let bb = BasicBlock {
        inner: BasicBlockInner::Concrete {
            statements: vec![Dummy::default(), Dummy::default()],
            condjmp: Some(Dummy::default()),
            next: Unconditional::Jump(0),
        },
        is_public: true,
    };
    assert_eq!(arena.push(bb).unwrap(), 0);
    assert!(arena.check().is_ok());
    assert!(!arena.optimize());
    assert_eq!(arena.len(), 1);
}

#[test]
fn check_finish_orders_the_pairs_and_drops_repeats() {
    assert!(check_finish(Vec::new()).is_ok());
    let e = check_finish(vec![(3, 1), (0, 2), (3, 1), (0, 1)]).unwrap_err();
    assert_eq!(e.0, vec![(0, 1), (0, 2), (3, 1)]);
}
