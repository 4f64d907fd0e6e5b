use mux::misc::{Context, Dentry, Dtab};
use mux::reader::read_mux_tmsg_msg;
use mux::writer::write_mux_tmsg_msg;
use mux::{MsgType, Tag, Tmsg};

fn assert_encode(msg: &Tmsg) -> Vec<u8> {
    let mut writer: Vec<u8> = Vec::new();
    write_mux_tmsg_msg(&mut writer, msg).unwrap();
    writer
}

fn assert_decode(t: MsgType, bytes: Vec<u8>) -> Tmsg {
    read_mux_tmsg_msg(&bytes, 0, t).unwrap()
}

fn assert_decode_encoded(len: usize, msg: &Tmsg) {
    let bytes = assert_encode(msg);
    assert_eq!(bytes.len(), len);

    let decoded = assert_decode(msg.get_type(), bytes);
    assert_eq!(*msg, decoded);
}

#[test]
fn test_decode_treq() {
    let mut sz = 0;

    let trace = None;
    sz += 1;

    let body = b"momma";
    sz += 5;

    assert_decode_encoded(sz, &Tmsg::Req(trace, body.to_vec()));
}

#[test]
fn test_decode_tdispatch() {
    let mut sz = 0;

    let contexts = vec![Context::new(vec![1], vec![2, 3])];
    sz += 2 + 2 + 1 + 2 + 2;

    let dst = "/ugh".to_string();
    sz += 2 + 4;

    let dtab = Dtab(vec![Dentry::new("/foo".to_string(), "/bars".to_string())]);
    sz += 2 + 2 + 4 + 2 + 5;

    let body = b"mom".to_vec();
    sz += 3;

    assert_decode_encoded(sz, &Tmsg::Dispatch(contexts, dst, dtab, body));
}

#[test]
fn test_decode_tdrain() {
    assert_decode_encoded(0, &Tmsg::Drain);
}

#[test]
fn test_decode_tping() {
    assert_decode_encoded(0, &Tmsg::Ping);
}

#[test]
fn test_decode_tdiscarded() {
    assert_decode_encoded(3 + 3, &Tmsg::Discarded(Tag(0, 1, 0), "msg".to_string()));
}

#[test]
fn test_decode_tlease() {
    assert_decode_encoded(1 + 8, &Tmsg::Lease(60, 30));
}
