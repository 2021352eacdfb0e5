use yz_basic_block::bb::BasicBlockInner;
use yz_basic_block::helpers::ReplaceLabels;
use yz_basic_block::jump::{seq_set_trgs, seq_trgs, Dummy, IntoTargetsIter, Unconditional};
use yz_basic_block::labels::{side_of, LabelMap, Side};
use yz_basic_block::BasicBlock;

#[derive(Clone, Debug, PartialEq, Eq)]
struct Refs(Vec<usize>);

impl IntoTargetsIter for Refs {
    type Target = usize;

    fn into_trgs_iter(&self) -> Vec<usize> {
        self.0.clone()
    }

    fn set_trgs(&mut self, t: &[usize]) {
        self.0 = t.to_vec();
    }
}

#[test]
fn unconditional_shows_its_jump_target() {
    assert_eq!(Unconditional::Jump(7usize).into_trgs_iter(), vec![7]);
    assert_eq!(Unconditional::<usize>::Halt.into_trgs_iter(), Vec::<usize>::new());
    assert_eq!(Unconditional::<usize>::Return.into_trgs_iter(), Vec::<usize>::new());
    assert_eq!(Unconditional::<usize>::Unknown.into_trgs_iter(), Vec::<usize>::new());
    let mut j = Unconditional::Jump(7usize);
    j.set_trgs(&[9]);
    assert_eq!(j, Unconditional::Jump(9));
    let mut h = Unconditional::<usize>::Halt;
    h.set_trgs(&[]);
    assert_eq!(h, Unconditional::Halt);
}

#[test]
fn dummy_holds_no_target() {
    let mut d = Dummy::<usize>::default();
    assert_eq!(d.into_trgs_iter(), Vec::<usize>::new());
    d.set_trgs(&[]);
    assert_eq!(d, d.clone());
}

#[test]
fn sequence_targets_are_concatenated() {
    let mut v = vec![Refs(vec![1, 2]), Refs(vec![]), Refs(vec![3])];
    assert_eq!(seq_trgs(&v), vec![1, 2, 3]);
    seq_set_trgs(&mut v, &[7, 8, 9]);
    assert_eq!(v, vec![Refs(vec![7, 8]), Refs(vec![]), Refs(vec![9])]);
}

#[test]
fn block_targets_come_in_traversal_order() {
    let mut inner: BasicBlockInner<Refs, Refs, usize> = BasicBlockInner::Concrete {
        statements: vec![Refs(vec![4, 5]), Refs(vec![6])],
        condjmp: Some(Refs(vec![7])),
        next: Unconditional::Jump(8),
    };
    assert!(inner.is_concrete());
    assert!(!inner.is_placeholder());
    assert_eq!(inner.into_trgs_iter(), vec![4, 5, 6, 7, 8]);
    inner.set_trgs(&[1, 2, 3, 4, 5]);
    assert_eq!(
        inner,
        BasicBlockInner::Concrete {
            statements: vec![Refs(vec![1, 2]), Refs(vec![3])],
            condjmp: Some(Refs(vec![4])),
            next: Unconditional::Jump(5),
        }
    );
    let mut p: BasicBlockInner<Refs, Refs, usize> = Default::default();
    assert_eq!(p, BasicBlockInner::Placeholder { is_extern: false });
    assert!(p.is_placeholder());
    assert!(!p.is_concrete());
    assert_eq!(p.into_trgs_iter(), Vec::<usize>::new());
    p.set_trgs(&[]);
    assert_eq!(p, BasicBlockInner::Placeholder { is_extern: false });
}

#[test]
fn block_derefs_to_its_content() {
    let mut bb: BasicBlock<Refs, Refs, usize> =
        BasicBlock { inner: BasicBlockInner::Placeholder { is_extern: true }, is_public: true };
    assert!(bb.is_placeholder());
    *bb = BasicBlockInner::Concrete {
        statements: Vec::new(),
        condjmp: None,
        next: Unconditional::Halt,
    };
    assert!(bb.is_concrete());
    assert!(bb.is_public);
}

#[test]
fn labels_compare_as_strings_do() {
    let words = ["", "a", "A", "ab", "b", "ba", "é", "e", "z", "zz", "日本", "日", "~"];
    for a in words {
        for b in words {
            let expected = if a < b {
                Side::Before
            } else if a == b {
                Side::Same
            } else {
                Side::After
            };
            assert!(
                matches!(
                    (side_of(a, b), expected),
                    (Side::Before, Side::Before) | (Side::Same, Side::Same) | (Side::After, Side::After)
                ),
                "{:?} against {:?}",
                a,
                b
            );
        }
    }
}

#[test]
fn label_map_rewrite_follows_the_plan() {
    let mut labels = LabelMap::new();
    for (name, id) in [("d", 4usize), ("a", 1), ("c", 3), ("b", 1), ("e", 5)] {
        yz_basic_block::labels::set_label(&mut labels, name.to_string(), id, false).unwrap();
    }
    let mut plan = std::collections::BTreeMap::new();
    plan.insert(1usize, None);
    plan.insert(3usize, Some(9usize));
    plan.insert(7usize, Some(8usize));
    let gone = labels.rewrite(&plan);
    assert_eq!(gone, vec!["a".to_string(), "b".to_string()]);
    let left: Vec<(&str, usize)> = labels.entries().iter().map(|e| (e.0.as_str(), e.1)).collect();
    assert_eq!(left, vec![("c", 9), ("d", 4), ("e", 5)]);
    assert_eq!(yz_basic_block::labels::labels_of_bb(&labels, 9), vec!["c"]);
}

#[test]
fn replace_labels_renumbers() {
    let mut plan = ReplaceLabels::new(5);
    assert!(plan.is_empty());
    plan.mark(2, Some(2));
    assert!(plan.is_empty());
    plan.mark(1, None);
    assert!(!plan.is_empty());
    plan.mark(3, Some(4));
    let (trm, offset) = plan.finalize();
    assert_eq!(trm, vec![Some(0), None, Some(1), Some(3), Some(3)]);
    assert_eq!(offset, 1);
}

#[test]
fn replace_labels_without_marks_keeps_every_id() {
    let (trm, offset) = ReplaceLabels::new(3).finalize();
    assert_eq!(trm, vec![Some(0), Some(1), Some(2)]);
    assert_eq!(offset, 0);
    let (trm, offset) = ReplaceLabels::new(0).finalize();
    assert_eq!(trm, Vec::<Option<usize>>::new());
    assert_eq!(offset, 0);
}

#[test]
fn replace_labels_grows_to_the_ids_it_sees() {
    let mut plan = ReplaceLabels::new(2);
    plan.mark(0, None);
    plan.mark(3, None);
    plan.mark(1, None);
    let (trm, offset) = plan.finalize();
    assert_eq!(trm, vec![None, None, Some(0), None]);
    assert_eq!(offset, 2);
}
