use respkv::backend::Backend;
use respkv::cmd::handle_request;
use respkv::frame::RespFrame;

fn bulk(s: &[u8]) -> RespFrame {
    RespFrame::Bulk(s.to_vec())
}

fn req(words: &[&[u8]]) -> RespFrame {
    RespFrame::Array(words.iter().map(|w| RespFrame::Bulk(w.to_vec())).collect())
}

#[test]
fn backend_get_set_del_directly() {
    let mut b = Backend::new();
    assert_eq!(b.get(&b"k".to_vec(), 0), None);
    let prev = b.set(&b"k".to_vec(), b"v1".to_vec(), None, 0);
    assert_eq!(prev, None);
    assert_eq!(b.get(&b"k".to_vec(), 1), Some(b"v1".to_vec()));
    let prev = b.set(&b"k".to_vec(), b"v2".to_vec(), None, 2);
    assert_eq!(prev, Some(b"v1".to_vec()));
    assert_eq!(b.get(&b"k".to_vec(), 3), Some(b"v2".to_vec()));
    assert!(b.del(&b"k".to_vec(), 4));
    assert_eq!(b.get(&b"k".to_vec(), 5), None);
    assert!(!b.del(&b"k".to_vec(), 6));
}

#[test]
fn backend_expiry_is_per_key() {
    let mut b = Backend::new();
    b.set(&b"short".to_vec(), b"x".to_vec(), Some(10), 0);
    b.set(&b"long".to_vec(), b"y".to_vec(), None, 0);
    assert_eq!(b.get(&b"short".to_vec(), 9), Some(b"x".to_vec()));
    assert_eq!(b.get(&b"short".to_vec(), 10), None);
    assert_eq!(b.get(&b"long".to_vec(), 10), Some(b"y".to_vec()));
}

#[test]
fn values_shared_across_connections() {
    // Two request streams against the one store: what one connection
    // sets, the other reads.
    let mut store = Backend::new();
    let r = handle_request(&req(&[b"SET", b"shared", b"from-a"]), &mut store, 0);
    assert_eq!(r, RespFrame::Simple(b"OK".to_vec()));
    let r = handle_request(&req(&[b"GET", b"shared"]), &mut store, 1);
    assert_eq!(r, bulk(b"from-a"));
}

#[test]
fn racing_writers_leave_one_whole_value() {
    // Interleaved writers on one key: every read observes exactly one
    // writer's value, bytes whole, never a blend of the two.
    let mut store = Backend::new();
    let a = b"aaaaaaaaaa";
    let b = b"bbbbbbbbbb";
    handle_request(&req(&[b"SET", b"k", a]), &mut store, 0);
    handle_request(&req(&[b"SET", b"k", b]), &mut store, 0);
    let r = handle_request(&req(&[b"GET", b"k"]), &mut store, 1);
    assert!(r == bulk(a) || r == bulk(b));
    assert_eq!(r, bulk(b));
}

#[test]
fn deleting_one_key_spares_the_rest() {
    let mut store = Backend::new();
    handle_request(&req(&[b"SET", b"a", b"1"]), &mut store, 0);
    handle_request(&req(&[b"SET", b"b", b"2"]), &mut store, 0);
    handle_request(&req(&[b"DEL", b"a"]), &mut store, 1);
    let r = handle_request(&req(&[b"GET", b"b"]), &mut store, 2);
    assert_eq!(r, bulk(b"2"));
}
