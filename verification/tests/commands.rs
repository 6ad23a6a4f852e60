use respkv::backend::Backend;
use respkv::cmd::{convert, execute, handle_request, Command, ProtocolError};
use respkv::frame::RespFrame;

fn bulk(s: &[u8]) -> RespFrame {
    RespFrame::Bulk(s.to_vec())
}

fn req(words: &[&[u8]]) -> RespFrame {
    RespFrame::Array(words.iter().map(|w| bulk(w)).collect())
}

#[test]
fn convert_get() {
    match convert(&req(&[b"GET", b"k"])) {
        Ok(Command::Get(k)) => assert_eq!(k, b"k".to_vec()),
        _ => panic!("expected a get command"),
    }
}

#[test]
fn convert_is_case_insensitive() {
    match convert(&req(&[b"gEt", b"k"])) {
        Ok(Command::Get(k)) => assert_eq!(k, b"k".to_vec()),
        _ => panic!("expected a get command"),
    }
}

#[test]
fn convert_set_without_expiry() {
    match convert(&req(&[b"set", b"k", b"v"])) {
        Ok(Command::Put(k, v, e)) => {
            assert_eq!(k, b"k".to_vec());
            assert_eq!(v, b"v".to_vec());
            assert_eq!(e, None);
        },
        _ => panic!("expected a set command"),
    }
}

#[test]
fn convert_set_with_expiry() {
    match convert(&req(&[b"SET", b"k", b"v", b"ex", b"10"])) {
        Ok(Command::Put(_, _, e)) => assert_eq!(e, Some(10)),
        _ => panic!("expected a set command"),
    }
}

#[test]
fn convert_del_many() {
    match convert(&req(&[b"DEL", b"a", b"b", b"c"])) {
        Ok(Command::Del(ks)) => {
            assert_eq!(ks, vec![b"a".to_vec(), b"b".to_vec(), b"c".to_vec()]);
        },
        _ => panic!("expected a del command"),
    }
}

#[test]
fn convert_ping_forms() {
    assert!(matches!(convert(&req(&[b"PING"])), Ok(Command::Ping(None))));
    match convert(&req(&[b"ping", b"hey"])) {
        Ok(Command::Ping(Some(p))) => assert_eq!(p, b"hey".to_vec()),
        _ => panic!("expected a ping command"),
    }
}

#[test]
fn convert_unknown_name_still_converts() {
    match convert(&req(&[b"FOOBAR"])) {
        Ok(Command::Unknown(n)) => assert_eq!(n, b"FOOBAR".to_vec()),
        _ => panic!("expected the unknown command"),
    }
}

#[test]
fn convert_rejects_non_array() {
    assert_eq!(
        convert(&RespFrame::Integer(3)).unwrap_err(),
        ProtocolError::WrongKind
    );
    assert_eq!(
        convert(&RespFrame::Simple(b"GET".to_vec())).unwrap_err(),
        ProtocolError::WrongKind
    );
}

#[test]
fn convert_rejects_non_bulk_element() {
    let f = RespFrame::Array(vec![bulk(b"GET"), RespFrame::Integer(1)]);
    assert_eq!(convert(&f).unwrap_err(), ProtocolError::WrongKind);
}

#[test]
fn convert_rejects_wrong_arity() {
    assert_eq!(
        convert(&req(&[b"GET"])).unwrap_err(),
        ProtocolError::WrongArity
    );
    assert_eq!(
        convert(&req(&[b"GET", b"a", b"b"])).unwrap_err(),
        ProtocolError::WrongArity
    );
    assert_eq!(
        convert(&req(&[b"SET", b"k"])).unwrap_err(),
        ProtocolError::WrongArity
    );
    assert_eq!(
        convert(&req(&[b"DEL"])).unwrap_err(),
        ProtocolError::WrongArity
    );
    assert_eq!(
        convert(&RespFrame::Array(vec![])).unwrap_err(),
        ProtocolError::WrongArity
    );
}

#[test]
fn convert_rejects_non_integer_expiry() {
    assert_eq!(
        convert(&req(&[b"SET", b"k", b"v", b"EX", b"soon"])).unwrap_err(),
        ProtocolError::BadArgument
    );
    assert_eq!(
        convert(&req(&[b"SET", b"k", b"v", b"PX", b"10"])).unwrap_err(),
        ProtocolError::BadArgument
    );
}

#[test]
fn unknown_command_answers_error_and_connection_goes_on() {
    let mut store = Backend::new();
    let r = handle_request(&req(&[b"FOOBAR"]), &mut store, 0);
    assert!(matches!(r, RespFrame::Error(_)));
    let r2 = handle_request(&req(&[b"PING"]), &mut store, 0);
    assert_eq!(r2, RespFrame::Simple(b"PONG".to_vec()));
}

#[test]
fn malformed_request_answers_error_without_closing() {
    let mut store = Backend::new();
    let r = handle_request(&RespFrame::Integer(1), &mut store, 0);
    assert!(matches!(r, RespFrame::Error(_)));
    let r2 = handle_request(&req(&[b"SET", b"k", b"v"]), &mut store, 0);
    assert_eq!(r2, RespFrame::Simple(b"OK".to_vec()));
    let r3 = handle_request(&req(&[b"GET", b"k"]), &mut store, 0);
    assert_eq!(r3, bulk(b"v"));
}

#[test]
fn set_get_del_semantics() {
    let mut store = Backend::new();
    let r = handle_request(&req(&[b"SET", b"k", b"v"]), &mut store, 0);
    assert_eq!(r, RespFrame::Simple(b"OK".to_vec()));
    let r = handle_request(&req(&[b"GET", b"k"]), &mut store, 5);
    assert_eq!(r, bulk(b"v"));
    let r = handle_request(&req(&[b"GET", b"never"]), &mut store, 5);
    assert_eq!(r, RespFrame::NullBulk);
    let r = handle_request(&req(&[b"DEL", b"k"]), &mut store, 6);
    assert_eq!(r, RespFrame::Integer(1));
    let r = handle_request(&req(&[b"GET", b"k"]), &mut store, 7);
    assert_eq!(r, RespFrame::NullBulk);
    let r = handle_request(&req(&[b"DEL", b"k"]), &mut store, 8);
    assert_eq!(r, RespFrame::Integer(0));
}

#[test]
fn del_counts_each_present_key_once() {
    let mut store = Backend::new();
    handle_request(&req(&[b"SET", b"a", b"1"]), &mut store, 0);
    handle_request(&req(&[b"SET", b"b", b"2"]), &mut store, 0);
    let r = handle_request(&req(&[b"DEL", b"a", b"a", b"b", b"c"]), &mut store, 1);
    assert_eq!(r, RespFrame::Integer(2));
}

#[test]
fn expiry_hides_the_value_after_its_deadline() {
    let mut store = Backend::new();
    let c = convert(&req(&[b"SET", b"k", b"v", b"EX", b"5"])).unwrap();
    execute(&c, &mut store, 100);
    let g = convert(&req(&[b"GET", b"k"])).unwrap();
    assert_eq!(execute(&g, &mut store, 104), bulk(b"v"));
    assert_eq!(execute(&g, &mut store, 105), RespFrame::NullBulk);
    let d = convert(&req(&[b"DEL", b"k"])).unwrap();
    assert_eq!(execute(&d, &mut store, 106), RespFrame::Integer(0));
}

#[test]
fn ping_with_payload_echoes_it() {
    let mut store = Backend::new();
    let r = handle_request(&req(&[b"PING", b"hello"]), &mut store, 0);
    assert_eq!(r, bulk(b"hello"));
}

#[test]
fn set_reports_ok_even_when_overwriting() {
    let mut store = Backend::new();
    handle_request(&req(&[b"SET", b"k", b"old"]), &mut store, 0);
    let r = handle_request(&req(&[b"SET", b"k", b"new"]), &mut store, 1);
    assert_eq!(r, RespFrame::Simple(b"OK".to_vec()));
    let r = handle_request(&req(&[b"GET", b"k"]), &mut store, 2);
    assert_eq!(r, bulk(b"new"));
}
