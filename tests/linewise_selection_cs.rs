use ot::cs::client::Client;
use ot::cs::server::Server;
use ot::cs::Id;
use ot::linewise::Operation as BaseOperation;
use ot::selection::linewise::Selection::{Cursor, Range};
use ot::selection::linewise::{Operation, Position, Target};

fn pos(row: usize, col: usize) -> Position {
    Position { row, col }
}

#[test]
fn test_linewise_selection_client_server() {
    let mut server: Server<Operation> = Server::new();

    let mut client1 = Client::with_state(server.current_state().copy());
    let mut client2 = Client::with_state(server.current_state().copy());

    let empty = Target { base: vec![], selection: vec![] };
    assert_eq!(client1.current_content().unwrap(), empty);
    assert_eq!(client2.current_content().unwrap(), empty);

    client1.push_operation(Operation::Op(
        vec![(1, vec![Cursor(pos(0, "こんに".len())), Range(pos(0, "こ".len()), pos(1, "世界".len()))])],
        {
            let mut op = BaseOperation::new();
            op.insert("こんにちは".into()).insert("世界".into());
            op
        },
    ));
    {
        let (base, sent) = client1.send_to_server().unwrap();
        let (id, op) = server.modify(base, sent).unwrap();
        client1.apply_patch(id, op).unwrap();
    }

    assert_eq!(
        client1.current_content().unwrap(),
        Target {
            base: vec!["こんにちは".into(), "世界".into()],
            selection: vec![(1, vec![Cursor(pos(0, "こんに".len())), Range(pos(0, "こ".len()), pos(1, "世界".len()))])],
        }
    );
    assert_eq!(client2.current_content().unwrap(), empty);

    client2.push_operation(Operation::Op(vec![(2, vec![Cursor(pos(0, "!".len()))])], {
        let mut op = BaseOperation::new();
        op.insert("!".into());
        op
    }));
    {
        let (base, sent) = client2.send_to_server().unwrap();
        let (id, op) = server.modify(base, sent).unwrap();
        client2.apply_patch(id, op).unwrap();
    }

    assert_eq!(
        client2.current_content().unwrap(),
        Target {
            base: vec!["!".into(), "こんにちは".into(), "世界".into()],
            selection: vec![
                (2, vec![Cursor(pos(0, "!".len()))]),
                (1, vec![Cursor(pos(1, "こんに".len())), Range(pos(1, "こ".len()), pos(2, "世界".len()))]),
            ],
        }
    );

    {
        let target = client1.current_content().unwrap();
        client1.push_operation(target.operate({
            let mut op = BaseOperation::new();
            op.delete(1).insert("さようなら".into()).retain(1);
            op
        }));
    }
    {
        let (base, sent) = client1.send_to_server().unwrap();
        let (id, op) = server.modify(base, sent).unwrap();
        client1.apply_patch(id, op).unwrap();
    }

    let ones = (1, vec![Cursor(pos(2, 0)), Range(pos(2, 0), pos(2, "世界".len()))]);
    let expected = Target {
        base: vec!["!".into(), "さようなら".into(), "世界".into()],
        selection: vec![(2, vec![Cursor(pos(0, "!".len()))]), ones.clone()],
    };
    assert_eq!(client1.current_content().unwrap(), expected);

    {
        let since = client2.send_get_patch().unwrap();
        assert_eq!(since, Id(2));
        let (id, op) = server.get_patch(&since).unwrap();
        client2.apply_patch(id, op).unwrap();
    }

    assert_eq!(client1.current_content().unwrap(), expected);
    assert_eq!(client2.current_content().unwrap(), expected);
}
