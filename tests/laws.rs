use ot::linewise::Operation as LineOp;
use ot::selection::linewise::{Position, Selection};
use ot::charwise::Operation;
use ot::cs::client::{Client, ClientError};
use ot::cs::server::Server;
use ot::cs::Id;
use ot::Operation as OperationTrait;

fn s3_left() -> Operation {
    let mut op = Operation::new();
    op.retain(15).insert("!".into()).retain(1).delete(6).insert("社会".into());
    op
}

fn s3_right() -> Operation {
    let mut op = Operation::new();
    op.delete(15).insert("さようなら".into()).retain(7);
    op
}

#[test]
fn apply_gives_target_length() {
    let source = "こんにちは 世界".to_string();
    let op = s3_left();
    assert_eq!(op.source_len(), source.len());
    assert_eq!(op.apply(&source).len(), op.target_len());
    assert_eq!(op.target_len(), 23);
}

#[test]
fn nop_leaves_string_and_is_neutral() {
    let source = "こんにちは 世界".to_string();
    let nop = Operation::nop(&source);
    assert_eq!(nop.apply(&source), source);
    let op = s3_left();
    let after = op.apply(&source);
    let right_nop = Operation::nop(&after);
    assert_eq!(format!("{:?}", op.clone().compose(right_nop)), format!("{:?}", op));
    let left_nop = Operation::nop(&source);
    assert_eq!(format!("{:?}", left_nop.compose(op.clone())), format!("{:?}", op));
}

#[test]
fn builder_fuses_neighbours_and_drops_empty_steps() {
    let mut op = Operation::new();
    op.retain(1).retain(2).insert("a".into()).insert("b".into()).delete(0).insert(String::new()).delete(1).delete(1);
    let shown = format!("{:?}", op);
    assert!(shown.contains("Retain(3)"));
    assert!(shown.contains("Insert([97, 98])"));
    assert!(shown.contains("Delete(2)"));
    assert_eq!(op.source_len(), 5);
    assert_eq!(op.target_len(), 5);
}

#[test]
fn transform_scenario_converges() {
    let source = "こんにちは 世界".to_string();
    let (l2, r2) = s3_left().transform(s3_right());
    let a = s3_left().compose(r2).apply(&source);
    let b = s3_right().compose(l2).apply(&source);
    assert_eq!(a, b);
    assert_eq!(a, "!さようなら 社会");
}

#[test]
fn compose_equals_sequence() {
    let source = "こんにちは 世界".to_string();
    let first = s3_left();
    let mid = first.apply(&source);
    let mut second = Operation::new();
    second.delete(15).insert("さようなら".into()).retain(mid.len() - 15);
    assert_eq!(second.apply(&mid), first.compose(second.clone()).apply(&source));
}

#[test]
fn insert_against_empty_gives_text() {
    let mut op = Operation::new();
    op.insert("x".into());
    assert_eq!(op.apply(&String::new()), "x");
}

#[test]
fn server_get_patch_out_of_range() {
    let server: Server<Operation> = Server::new();
    assert!(server.get_patch(&Id(1)).is_err());
    let (id, op) = server.get_patch(&Id(0)).unwrap();
    assert_eq!(id, Id(0));
    assert_eq!(op.source_len(), 0);
}

#[test]
fn server_rejects_unknown_parent() {
    let mut server: Server<Operation> = Server::new();
    let mut op = Operation::new();
    op.insert("a".into());
    assert!(server.modify(Id(3), op).is_err());
    assert_eq!(server.current_state().id, Id(0));
}

#[test]
fn server_rejects_misfit_operation() {
    let mut server: Server<Operation> = Server::new();
    let mut op = Operation::new();
    op.retain(4);
    assert!(server.modify(Id(0), op).is_err());
}

#[test]
fn single_client_round_trip() {
    let mut server: Server<Operation> = Server::new();
    let mut client = Client::with_state(server.current_state().copy());
    let mut op = Operation::new();
    op.insert("こんにちは 世界".into());
    client.push_operation(op);
    let (base, sent) = client.send_to_server().unwrap();
    let (id, answer) = server.modify(base, sent).unwrap();
    client.apply_response(id, answer).unwrap();
    assert_eq!(client.current_content().unwrap(), "こんにちは 世界");
    assert!(server.get_patch(&Id(1)).is_ok());
    assert!(server.get_patch(&Id(2)).is_err());
}

#[test]
fn client_errors() {
    let server: Server<Operation> = Server::new();
    let mut client = Client::with_state(server.current_state().copy());
    assert_eq!(client.send_to_server().unwrap_err(), "client has no diff in buffer");
    let mut op = Operation::new();
    op.insert("a".into());
    client.push_operation(op);
    let _ = client.send_to_server().unwrap();
    assert_eq!(client.send_to_server().unwrap_err(), "client is not in buffering state");
    assert!(matches!(client.send_get_patch(), Err(ClientError::Syncing)));
    let mut idle = Client::with_state(server.current_state().copy());
    assert!(matches!(idle.apply_response(Id(1), Operation::new()), Err(ClientError::NotWaiting)));
    let mut bad = Operation::new();
    bad.retain(9);
    idle.push_operation(bad);
    let mut next = Operation::new();
    next.retain(2);
    idle.push_operation(next);
    assert!(idle.current_content().is_err());
    assert!(matches!(idle.send_get_patch(), Err(ClientError::NotConnected(_))));
}

#[test]
fn unsynced_content_applies_buffer() {
    let server: Server<Operation> = Server::new();
    let mut client = Client::with_state(server.current_state().copy());
    let mut op = Operation::new();
    op.insert("ab".into());
    client.push_operation(op);
    assert_eq!(client.unsynced_content().unwrap(), "ab");
    assert_eq!(client.current_content().unwrap(), "");
}

#[test]
fn split_inside_a_character_does_not_fit() {
    let mut op = Operation::new();
    op.retain(1).delete(1);
    assert!(!op.fits(&"é".to_string()));
    let mut whole = Operation::new();
    whole.delete(2);
    assert!(whole.fits(&"é".to_string()));
    assert!(!whole.fits(&"éa".to_string()));
}

#[test]
fn line_nop_and_row_bound() {
    let lines: Vec<String> = vec!["a".into(), "bc".into()];
    let nop = LineOp::nop(&lines);
    assert_eq!(nop.apply(&lines), lines);
    let mut op = LineOp::new();
    op.delete(2).insert("z".into());
    let mut p = Position { row: 2, col: 0 };
    Selection::transform_index(&mut p, &op);
    assert!(p.row <= op.target_len());
    assert_eq!(p, Position { row: 1, col: 0 });
}
