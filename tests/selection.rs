use ot::charwise::Operation as CharOperation;
use ot::linewise::Operation as LineOperation;
use ot::selection::charwise::Selection as CharSelection;
use ot::selection::linewise::{Operation, Position, Selection, Target};
use ot::selection::linewise::Selection::{Cursor, Range};
use ot::Operation as OperationTrait;

fn s3_left() -> CharOperation {
    let mut op = CharOperation::new();
    op.retain(15).insert("!".into()).retain(1).delete(6).insert("社会".into());
    op
}

#[test]
fn linewise_selection_test_apply() {
    let target = Target {
        base: vec!["こんにちは".into(), "世界".into()],
        selection: vec![(
            1,
            vec![
                Range(Position { row: 0, col: "こんに".len() }, Position { row: 1, col: "世".len() }),
                Cursor(Position { row: 1, col: "世界".len() }),
            ],
        )],
    };
    let op = target.operate({
        let mut op = LineOperation::new();
        op.retain(1).insert("!".into()).modify({
            let mut op = CharOperation::new();
            op.delete("世界".len());
            op.insert("社会".into());
            op
        });
        op
    });

    assert_eq!(
        op.apply(&target),
        Target {
            base: vec!["こんにちは".into(), "!".into(), "社会".into()],
            selection: vec![(
                1,
                vec![
                    Range(Position { row: 0, col: "こんに".len() }, Position { row: 2, col: "社会".len() }),
                    Cursor(Position { row: 2, col: "社会".len() }),
                ],
            )],
        }
    );
}

#[test]
fn selection_range_through_insert_and_delete() {
    let mut start = 15usize;
    let mut end = 16usize;
    let op = s3_left();
    CharSelection::transform_index(&mut start, &op);
    CharSelection::transform_index(&mut end, &op);
    assert_eq!((start, end), (16, 23));
    assert_eq!(CharSelection::Range(15, 16).transform(&op), Some(CharSelection::Range(16, 23)));
    let result = op.apply(&"こんにちは 世界".to_string());
    assert_eq!(&result.as_bytes()[16..17], b" ");
}

#[test]
fn selection_collapsed_range_is_dropped() {
    let mut op = CharOperation::new();
    op.retain(2).delete(3).retain(1);
    assert_eq!(CharSelection::Range(2, 5).transform(&op), None);
    assert_eq!(CharSelection::Cursor(4).transform(&op), Some(CharSelection::Cursor(2)));
}

#[test]
fn selection_index_stays_in_range() {
    let op = s3_left();
    for v in 0..=op.source_len() {
        let mut p = v;
        CharSelection::transform_index(&mut p, &op);
        assert!(p <= op.target_len());
    }
}

#[test]
fn selection_transform_right_wins_on_same_user() {
    let base: Vec<String> = vec!["ab".into()];
    let target = Target { base: base.clone(), selection: vec![] };
    let left = target.select(vec![(7, vec![Cursor(Position { row: 0, col: 0 })])]);
    let right = target.select(vec![(7, vec![Cursor(Position { row: 0, col: 2 })])]);
    let (l2, r2) = left.transform(right);
    let applied = r2.apply(&target);
    assert_eq!(applied.selection.last().unwrap(), &(7, vec![Cursor(Position { row: 0, col: 2 })]));
    let applied_l = l2.apply(&target);
    assert_eq!(applied_l.selection, applied.selection);
}

#[test]
fn selection_nop_leaves_target() {
    let target = Target { base: vec!["x".into()], selection: vec![] };
    let nop = Operation::nop(&target);
    assert_eq!(nop.apply(&target), target);
}

#[test]
fn linewise_selection_test_compose() {
    let target = Target {
        base: vec!["こんにちは".into(), "世界".into()],
        selection: vec![(
            1,
            vec![
                Range(Position { row: 0, col: "こんに".len() }, Position { row: 1, col: "世".len() }),
                Cursor(Position { row: 1, col: "世界".len() }),
            ],
        )],
    };
    let first = target.operate({
        let mut op = LineOperation::new();
        op.retain(1).insert("!".into()).modify({
            let mut op = CharOperation::new();
            op.delete("世界".len());
            op.insert("社会".into());
            op
        });
        op
    });
    let applied = first.apply(&target);
    let second = applied.operate({
        let mut op = LineOperation::new();
        op.delete(1).insert("さようなら".into()).retain(2);
        op
    });

    assert_eq!(second.apply(&first.apply(&target)), first.clone().compose(second.clone()).apply(&target));
    let expected = Target {
        base: vec!["さようなら".into(), "!".into(), "社会".into()],
        selection: vec![(
            1,
            vec![
                Range(Position { row: 1, col: 0 }, Position { row: 2, col: "社会".len() }),
                Cursor(Position { row: 2, col: "社会".len() }),
            ],
        )],
    };
    assert_eq!(second.apply(&first.apply(&target)), expected);
    assert_eq!(first.compose(second).apply(&target), expected);
}

#[test]
fn linewise_selection_test_transform() {
    let target = Target {
        base: vec!["こんにちは".into(), "世界".into()],
        selection: vec![(
            1,
            vec![
                Range(Position { row: 0, col: "こんに".len() }, Position { row: 1, col: "世".len() }),
                Cursor(Position { row: 0, col: "こんにち".len() }),
            ],
        )],
    };
    let left = target.operate({
        let mut op = LineOperation::new();
        op.retain(1).insert("!".into()).modify({
            let mut op = CharOperation::new();
            op.delete("世界".len());
            op.insert("社会".into());
            op
        });
        op
    });
    let right = Operation::Op(vec![(2, vec![Cursor(Position { row: 0, col: "こ".len() })])], {
        let mut op = LineOperation::new();
        op.delete(1).insert("さようなら".into()).retain(1);
        op
    });

    let (left_, right_) = left.clone().transform(right.clone());
    let composed_left = left.compose(right_);
    let composed_right = right.compose(left_);

    assert_eq!(composed_left.apply(&target), composed_right.apply(&target));
    assert_eq!(
        composed_left.apply(&target),
        Target {
            base: vec!["!".into(), "さようなら".into(), "社会".into()],
            selection: vec![
                (
                    1,
                    vec![
                        Range(Position { row: 0, col: 0 }, Position { row: 2, col: "社会".len() }),
                        Cursor(Position { row: 0, col: 0 }),
                    ],
                ),
                (2, vec![Cursor(Position { row: 1, col: "こ".len() })]),
            ],
        }
    );
}

#[test]
fn linewise_selection_covering_delete_resets_column() {
    let mut op = LineOperation::new();
    op.delete(2).retain(1);
    let lines: Vec<String> = vec!["a".into(), "abcdef".into(), "b".into()];
    let mut p = Position { row: 1, col: 5 };
    Selection::transform_index(&mut p, &op);
    assert_eq!(p, Position { row: 0, col: 0 });
    let result = op.apply(&lines);
    assert!(p.col <= result[p.row].len());
    let r = Range(Position { row: 1, col: 5 }, Position { row: 2, col: 0 });
    assert_eq!(r.transform(&op), None);
}
