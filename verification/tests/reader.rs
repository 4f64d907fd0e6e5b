use mux::misc::MuxError;
use mux::reader::{read_be_u64, read_len_buf, read_len_string, read_len_vec, read_mux_contexts,
    read_mux_tag, read_u8};
use mux::Tag;

fn mk_str_buf(n: usize, s: &str) -> Vec<u8> {
    let mut w: Vec<u8> = vec![(n >> 8) as u8, n as u8];
    w.extend_from_slice(s.as_bytes());
    w
}

#[test]
fn test_tag() {
    let bytes = [23, 45, 77, 88];
    let (tag, pos) = read_mux_tag(&bytes, 0).unwrap();
    assert_eq!(tag, Tag(23, 45, 77));
    assert_eq!(read_u8(&bytes, pos).unwrap().0, 88);
}

#[test]
fn test_contexts() {
    let bytes = [
        0x00, 0x00, // contexts
        0x6e, 0x6f, 0x70, 0x65, // "nope"
    ];
    let (contexts, pos) = read_mux_contexts(&bytes, 0).unwrap();
    assert_eq!(contexts, vec![]);
    assert_eq!(read_u8(&bytes, pos).unwrap().0, 0x6e);
}

#[test]
fn test_len_buf() {
    match read_len_buf(&[0, 3, 4, 5, 6, 7], 0) {
        Err(ioe) => panic!("read error: {:?}", ioe),
        Ok((buf, _)) => assert_eq!(buf, vec![4, 5, 6]),
    }

    match read_len_buf(&[0, 3, 4, 5], 0) {
        Ok(_) => panic!("did not underflow"),
        Err(_) => (),
    }

    match read_len_buf(&[0, 0, 4, 5], 0) {
        Err(ioe) => panic!("read error: {:?}", ioe),
        Ok((buf, _)) => assert_eq!(buf, vec![]),
    }
}

#[test]
fn test_len_string() {
    match read_len_string(&mk_str_buf(3, "mom"), 0) {
        Err(ioe) => panic!("read error: {:?}", ioe),
        Ok((s, _)) => assert_eq!(s.as_str(), "mom"),
    }

    match read_len_string(&mk_str_buf(3, "mo"), 0) {
        Ok(_) => panic!("did not underflow"),
        Err(_) => (),
    }

    match read_len_string(&mk_str_buf(0, "mom"), 0) {
        Err(ioe) => panic!("read error: {:?}", ioe),
        Ok((s, _)) => assert_eq!(s.as_str(), ""),
    }
}

fn vec_buf() -> Vec<u8> {
    vec![
        0, 0, 0, 0, 0, 0, 0, 0, //
        0, 0, 0, 0, 0, 0, 1, 0, //
        0, 0, 0, 0, 0, 1, 0, 0, //
        0, 0, 0, 0, 1, 0, 0, 0,
    ]
}

#[test]
fn test_len_vec() {
    fn read_u64_vec(n: usize) -> Result<(Vec<u64>, usize), MuxError> {
        let buf = vec_buf();
        read_len_vec(n, 0, |p: usize| read_be_u64(&buf, p))
    }

    match read_u64_vec(2) {
        Err(ioe) => panic!("read error: {:?}", ioe),
        Ok((s, _)) => assert_eq!(s, vec![0, 256]),
    }

    match read_u64_vec(5) {
        Ok(_) => panic!("did not underflow"),
        Err(_) => (),
    }

    match read_u64_vec(0) {
        Err(ioe) => panic!("read error: {:?}", ioe),
        Ok((s, _)) => assert_eq!(s, vec![]),
    }
}
