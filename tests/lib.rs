use ot::charwise::Operation;
use ot::cs::server::Server;
use ot::cs::client::Client;
use ot::Operation as OperationTrait;

struct Rng(u64);

impl Rng {
    fn next(&mut self) -> u64 {
        self.0 ^= self.0 << 13;
        self.0 ^= self.0 >> 7;
        self.0 ^= self.0 << 17;
        self.0
    }

    fn range(&mut self, lo: usize, hi: usize) -> usize {
        lo + (self.next() % ((hi - lo) as u64)) as usize
    }
}

const ALPHABET: [char; 8] = ['a', 'b', ' ', 'é', 'あ', '世', '界', '😀'];

fn random_string(rng: &mut Rng, len: usize) -> String {
    (0..len).map(|_| ALPHABET[rng.range(0, ALPHABET.len())]).collect()
}

fn random_operation(rng: &mut Rng, source: &str) -> Operation {
    let mut ret = Operation::new();
    let chars = source.chars().collect::<Vec<_>>();
    let mut idx = 0;
    while idx < chars.len() {
        match rng.range(0, 3) {
            0 => {
                let len = rng.range(1, chars.len() - idx + 1);
                let bytes: usize = chars[idx..idx + len].iter().map(|c| c.len_utf8()).sum();
                ret.retain(bytes);
                idx += len;
            }
            1 => {
                let len = rng.range(0, 10);
                ret.insert(random_string(rng, len));
            }
            _ => {
                let len = rng.range(1, chars.len() - idx + 1);
                let bytes: usize = chars[idx..idx + len].iter().map(|c| c.len_utf8()).sum();
                ret.delete(bytes);
                idx += len;
            }
        }
    }
    ret
}

#[test]
fn lib_test_apply() {
    let source = "こんにちは 世界".into();
    let op = {
        let mut op = Operation::new();
        op.retain("こんにちは".len())
            .insert("!".into())
            .retain(" ".len())
            .delete("世界".len())
            .insert("社会".into());
        op
    };

    assert_eq!(op.apply(&source), "こんにちは! 社会");
}

#[test]
fn lib_test_compose() {
    let source = "こんにちは 世界".into();
    let first = {
        let mut op = Operation::new();
        op.retain("こんにちは".len())
            .insert("!".into())
            .retain(" ".len())
            .delete("世界".len())
            .insert("社会".into());
        op
    };
    let second = {
        let mut op = Operation::new();
        op.delete("こんにちは".len())
            .insert("さようなら".into())
            .retain("! 社会".len());
        op
    };

    assert_eq!(
        second.apply(&first.apply(&source)),
        first.clone().compose(second.clone()).apply(&source)
    );
    assert_eq!(second.apply(&first.apply(&source)), "さようなら! 社会");
    assert_eq!(first.compose(second).apply(&source), "さようなら! 社会");
}

#[test]
fn lib_test_transform() {
    let source = "こんにちは 世界".into();
    let left = {
        let mut op = Operation::new();
        op.retain("こんにちは".len())
            .insert("!".into())
            .retain(" ".len())
            .delete("世界".len())
            .insert("社会".into());
        op
    };
    let right = {
        let mut op = Operation::new();
        op.delete("こんにちは".len())
            .insert("さようなら".into())
            .retain(" 世界".len());
        op
    };

    let (left_, right_) = left.clone().transform(right.clone());
    let composed_left = left.compose(right_);
    let composed_right = right.compose(left_);

    assert_eq!(composed_left.apply(&source), composed_right.apply(&source));
    assert_eq!(composed_left.apply(&source), "!さようなら 社会");
    assert_eq!(composed_right.apply(&source), "!さようなら 社会");
}

#[test]
fn lib_test_random_operation() {
    let mut rng = Rng(0x9e3779b97f4a7c15);
    let original_len = rng.range(32, 100);
    let source = random_string(&mut rng, original_len);
    let operation = random_operation(&mut rng, &source);

    assert_eq!(operation.source_len(), source.len());
}

#[test]
fn lib_fuzz_test_compose() {
    let mut rng = Rng(0x2545f4914f6cdd1d);
    for _ in 0..100 {
        let original_len = rng.range(32, 100);
        let source = random_string(&mut rng, original_len);

        let first = random_operation(&mut rng, &source);
        let applied = first.apply(&source);
        let second = random_operation(&mut rng, &applied);

        let double_applied = second.apply(&applied);
        let compose_applied = first.compose(second).apply(&source);

        assert_eq!(double_applied, compose_applied);
    }
}

#[test]
fn lib_fuzz_test_transform() {
    let mut rng = Rng(0x853c49e6748fea9b);
    for _ in 0..1000 {
        let original_len = rng.range(32, 100);
        let source = random_string(&mut rng, original_len);

        let left = random_operation(&mut rng, &source);
        let right = random_operation(&mut rng, &source);

        let (left_, right_) = left.clone().transform(right.clone());
        let left = left.compose(right_);
        let right = right.compose(left_);

        assert_eq!(left.apply(&source), right.apply(&source));
    }
}

#[test]
fn lib_test_client_server() {
    let mut server: Server<Operation> = Server::new();

    let mut client1 = Client::with_state(server.current_state().copy());
    let mut client2 = Client::with_state(server.current_state().copy());

    assert_eq!(client1.current_content().unwrap(), "");
    assert_eq!(client2.current_content().unwrap(), "");

    client1.push_operation({
        let mut op = Operation::new();
        op.insert("こんにちは 世界".into());
        op
    });
    {
        let (base, sent) = client1.send_to_server().unwrap();
        let (id, op) = server.modify(base, sent).unwrap();
        client1.apply_patch(id, op).unwrap();
    }

    assert_eq!(client1.current_content().unwrap(), "こんにちは 世界");
    assert_eq!(client2.current_content().unwrap(), "");

    client2.push_operation({
        let mut op = Operation::new();
        op.insert("!".into());
        op
    });
    {
        let (base, sent) = client2.send_to_server().unwrap();
        let (id, op) = server.modify(base, sent).unwrap();
        client2.apply_patch(id, op).unwrap();
    }

    assert_eq!(client1.current_content().unwrap(), "こんにちは 世界");
    assert_eq!(client2.current_content().unwrap(), "!こんにちは 世界");

    client1.push_operation({
        let mut op = Operation::new();
        op.delete("こんにちは".len());
        op.insert("さようなら".into());
        op.retain(" 世界".len());
        op
    });
    {
        let (base, sent) = client1.send_to_server().unwrap();
        let (id, op) = server.modify(base, sent).unwrap();
        client1.apply_patch(id, op).unwrap();
    }

    assert_eq!(client1.current_content().unwrap(), "!さようなら 世界");
    assert_eq!(client2.current_content().unwrap(), "!こんにちは 世界");

    {
        let since = client2.send_get_patch().unwrap();
        let (latest_id, diff) = server.get_patch(&since).unwrap();
        client2.apply_patch(latest_id, diff).unwrap();
    }

    assert_eq!(client1.current_content().unwrap(), "!さようなら 世界");
    assert_eq!(client2.current_content().unwrap(), "!さようなら 世界");
}
