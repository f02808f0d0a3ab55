use ot::charwise::Operation;
use ot::cs::server::Server;
use ot::cs::client::Client;

#[test]
fn test_charwise_client_server() {
    let mut server: Server<Operation> = Server::new();

    let mut client1 = Client::with_state(server.current_state().copy());
    let mut client2 = Client::with_state(server.current_state().copy());

    assert_eq!(client1.current_content().unwrap(), "");
    assert_eq!(client2.current_content().unwrap(), "");

    client1.push_operation({
        let mut op = Operation::new();
        op.insert("こんにちは 世界".into());
        op
    });
    {
        let (base, sent) = client1.send_to_server().unwrap();
        let (id, op) = server.modify(base, sent).unwrap();
        client1.apply_patch(id, op).unwrap();
    }

    assert_eq!(client1.current_content().unwrap(), "こんにちは 世界");
    assert_eq!(client2.current_content().unwrap(), "");

    client2.push_operation({
        let mut op = Operation::new();
        op.insert("!".into());
        op
    });
    {
        let (base, sent) = client2.send_to_server().unwrap();
        let (id, op) = server.modify(base, sent).unwrap();
        client2.apply_patch(id, op).unwrap();
    }

    assert_eq!(client1.current_content().unwrap(), "こんにちは 世界");
    assert_eq!(client2.current_content().unwrap(), "!こんにちは 世界");

    client1.push_operation({
        let mut op = Operation::new();
        op.delete("こんにちは".len());
        op.insert("さようなら".into());
        op.retain(" 世界".len());
        op
    });
    {
        let (base, sent) = client1.send_to_server().unwrap();
        let (id, op) = server.modify(base, sent).unwrap();
        client1.apply_patch(id, op).unwrap();
    }

    assert_eq!(client1.current_content().unwrap(), "!さようなら 世界");
    assert_eq!(client2.current_content().unwrap(), "!こんにちは 世界");

    {
        let since = client2.send_get_patch().unwrap();
        let (latest_id, diff) = server.get_patch(&since).unwrap();
        client2.apply_patch(latest_id, diff).unwrap();
    }

    assert_eq!(client1.current_content().unwrap(), "!さようなら 世界");
    assert_eq!(client2.current_content().unwrap(), "!さようなら 世界");
}
