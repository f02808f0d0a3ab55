use ot::linewise::Operation;
use ot::Operation as OperationTrait;

struct Rng(u64);

impl Rng {
    fn next(&mut self) -> u64 {
        self.0 ^= self.0 << 13;
        self.0 ^= self.0 >> 7;
        self.0 ^= self.0 << 17;
        self.0
    }

    fn range(&mut self, lo: usize, hi: usize) -> usize {
        lo + (self.next() % ((hi - lo) as u64)) as usize
    }
}

const ALPHABET: [char; 8] = ['a', 'b', ' ', 'é', 'あ', '世', '界', '😀'];

fn random_string(rng: &mut Rng, len: usize) -> String {
    (0..len).map(|_| ALPHABET[rng.range(0, ALPHABET.len())]).collect()
}

fn random_char_operation(rng: &mut Rng, source: &str) -> ot::charwise::Operation {
    let mut ret = ot::charwise::Operation::new();
    let chars = source.chars().collect::<Vec<_>>();
    let mut idx = 0;
    while idx < chars.len() {
        match rng.range(0, 3) {
            0 => {
                let len = rng.range(1, chars.len() - idx + 1);
                let bytes: usize = chars[idx..idx + len].iter().map(|c| c.len_utf8()).sum();
                ret.retain(bytes);
                idx += len;
            }
            1 => {
                let len = rng.range(0, 10);
                ret.insert(random_string(rng, len));
            }
            _ => {
                let len = rng.range(1, chars.len() - idx + 1);
                let bytes: usize = chars[idx..idx + len].iter().map(|c| c.len_utf8()).sum();
                ret.delete(bytes);
                idx += len;
            }
        }
    }
    ret
}

fn random_lines(rng: &mut Rng, max_line_len: usize, line_num: usize) -> Vec<String> {
    (0..line_num)
        .map(|_| {
            let len = rng.range(0, max_line_len + 1);
            random_string(rng, len)
        })
        .collect()
}

fn random_operation(rng: &mut Rng, source: &[String]) -> Operation {
    let mut ret = Operation::new();
    let mut idx = 0;
    while idx < source.len() {
        match rng.range(0, 4) {
            0 => {
                let len = rng.range(1, source.len() - idx + 1);
                ret.retain(len);
                idx += len;
            }
            1 => {
                let len = rng.range(0, 10);
                ret.insert(random_string(rng, len));
            }
            2 => {
                ret.modify(random_char_operation(rng, &source[idx]));
                idx += 1;
            }
            _ => {
                let len = rng.range(1, source.len() - idx + 1);
                ret.delete(len);
                idx += len;
            }
        }
    }
    ret
}

fn s3_first() -> Operation {
    let mut op = Operation::new();
    op.retain(1).insert("!".into()).modify({
        let mut op = ot::charwise::Operation::new();
        op.delete("世界".len());
        op.insert("社会".into());
        op
    });
    op
}

#[test]
fn linewise_test_apply() {
    let source: Vec<String> = vec!["こんにちは".into(), "世界".into()];
    let op = s3_first();

    assert_eq!(op.apply(&source), ["こんにちは", "!", "社会"]);
}

#[test]
fn linewise_test_compose() {
    let source: Vec<String> = vec!["こんにちは".into(), "世界".into()];
    let first = s3_first();
    let second = {
        let mut op = Operation::new();
        op.delete(1).insert("さようなら".into()).retain(2);
        op
    };

    assert_eq!(
        second.apply(&first.apply(&source)),
        first.clone().compose(second.clone()).apply(&source)
    );
    assert_eq!(second.apply(&first.apply(&source)), ["さようなら", "!", "社会"]);
    assert_eq!(first.compose(second).apply(&source), ["さようなら", "!", "社会"]);
}

#[test]
fn linewise_test_transform() {
    let source: Vec<String> = vec!["こんにちは".into(), "世界".into()];
    let left = s3_first();
    let right = {
        let mut op = Operation::new();
        op.delete(1).insert("さようなら".into()).retain(1);
        op
    };

    let (left_, right_) = left.clone().transform(right.clone());
    let composed_left = left.compose(right_);
    let composed_right = right.compose(left_);

    assert_eq!(composed_left.apply(&source), composed_right.apply(&source));
    assert_eq!(composed_left.apply(&source), ["!", "さようなら", "社会"]);
    assert_eq!(composed_right.apply(&source), ["!", "さようなら", "社会"]);
}

#[test]
fn linewise_test_random_operation() {
    let mut rng = Rng(0x9e3779b97f4a7c15);
    let original_len = rng.range(32, 100);
    let max_line_len = 30;
    let source = random_lines(&mut rng, max_line_len, original_len);
    let operation = random_operation(&mut rng, &source);

    assert_eq!(operation.source_len(), source.len());
}

#[test]
fn linewise_fuzz_test_compose() {
    let mut rng = Rng(0x2545f4914f6cdd1d);
    for _ in 0..100 {
        let original_len = rng.range(32, 100);
        let max_line_len = 30;
        let source = random_lines(&mut rng, max_line_len, original_len);

        let first = random_operation(&mut rng, &source);
        let applied = first.apply(&source);
        let second = random_operation(&mut rng, &applied);

        let double_applied = second.apply(&applied);
        let compose_applied = first.compose(second).apply(&source);

        assert_eq!(double_applied, compose_applied);
    }
}

#[test]
fn linewise_fuzz_test_transform() {
    let mut rng = Rng(0x853c49e6748fea9b);
    for _ in 0..1000 {
        let original_len = rng.range(32, 100);
        let max_line_len = 30;
        let source = random_lines(&mut rng, max_line_len, original_len);

        let left = random_operation(&mut rng, &source);
        let right = random_operation(&mut rng, &source);

        let (left_, right_) = left.clone().transform(right.clone());
        let left = left.compose(right_);
        let right = right.compose(left_);

        assert_eq!(left.apply(&source), right.apply(&source));
    }
}
