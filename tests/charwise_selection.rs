use ot::charwise::Operation as BaseOperation;
use ot::selection::charwise::Selection::{Cursor, Range};
use ot::selection::charwise::{Operation, Target};
use ot::Operation as OperationTrait;

fn s3_left() -> BaseOperation {
    let mut op = BaseOperation::new();
    op.retain("こんにちは".len())
        .insert("!".into())
        .retain(" ".len())
        .delete("世界".len())
        .insert("社会".into());
    op
}

#[test]
fn charwise_selection_test_apply() {
    let target = Target {
        base: "こんにちは 世界".into(),
        selection: vec![Range("こんにちは".len(), "こんにちは ".len()), Cursor("こんにちは 世界".len())],
    };
    let op = target.operate(s3_left());

    assert_eq!(
        op.apply(&target),
        Target {
            base: "こんにちは! 社会".into(),
            selection: vec![
                Range("こんにちは!".len(), "こんにちは! 社会".len()),
                Cursor("こんにちは! 社会".len()),
            ],
        }
    );
}

#[test]
fn charwise_selection_test_compose() {
    let target = Target { base: "こんにちは 世界".into(), selection: vec![] };
    let first = Operation::Op(
        vec![Range("こんにちは!".len(), "こんにちは! ".len()), Cursor("こんにちは! 世界".len())],
        s3_left(),
    );
    let applied = first.apply(&target);
    let second = applied.operate({
        let mut op = BaseOperation::new();
        op.delete("こんにちは".len()).insert("さようなら".into()).retain("! 社会".len());
        op
    });

    assert_eq!(second.apply(&first.apply(&target)), first.clone().compose(second.clone()).apply(&target));
    let expected = Target {
        base: "さようなら! 社会".into(),
        selection: vec![Range("さようなら!".len(), "さようなら! ".len()), Cursor("さようなら! 社会".len())],
    };
    assert_eq!(second.apply(&first.apply(&target)), expected);
    assert_eq!(first.compose(second).apply(&target), expected);
}

#[test]
fn charwise_selection_test_transform() {
    let target = Target { base: "こんにちは 世界".into(), selection: vec![] };
    let left = Operation::Op(
        vec![Range("こんにちは!".len(), "こんにちは! ".len()), Cursor("こんにちは! 世界".len())],
        s3_left(),
    );
    let right = Operation::Op(vec![Cursor("こ".len())], {
        let mut op = BaseOperation::new();
        op.delete("こんにちは".len()).insert("さようなら".into()).retain(" 世界".len());
        op
    });

    let (left_, right_) = left.clone().transform(right.clone());
    let composed_left = left.compose(right_);
    let composed_right = right.compose(left_);

    assert_eq!(composed_left.apply(&target), composed_right.apply(&target));
    assert_eq!(
        composed_left.apply(&target),
        Target {
            base: "!さようなら 社会".into(),
            selection: vec![
                Range("!さようなら".len(), "!さようなら ".len()),
                Cursor("!さようなら 社会".len()),
                Cursor("!こ".len()),
            ],
        }
    );
}
