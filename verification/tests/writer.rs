use mux::misc::MuxError;
use mux::writer::{write_be_u64, write_len_vec, write_mux_framed_tmsg};
use mux::{Tag, Tmsg};

fn encode_frame(tag: Tag, msg: Tmsg) -> Vec<u8> {
    let mut buf: Vec<u8> = Vec::new();
    write_mux_framed_tmsg(&mut buf, &tag, &msg).unwrap();
    buf
}

#[test]
fn test_discarded() {
    let vec = encode_frame(Tag(0, 0, 0), Tmsg::Discarded(Tag(0, 1, 2), "BAD".to_string()));
    assert_eq!(
        vec,
        vec![
            00, 00, 00, 10, // size
            66, // type
            0, 0, 0, // marker tag
            0, 1, 2, // tag ref
            66, 65, 68, // msg: BAD
        ]
    );
}

#[test]
fn test_write_len_vec() {
    let values: Vec<u64> = vec![0, 256];
    let mut out: Vec<u8> = Vec::new();
    write_len_vec(&mut out, values.len(), |i: usize| {
        let mut chunk: Vec<u8> = Vec::new();
        write_be_u64(&mut chunk, values[i]);
        Ok(chunk)
    })
    .unwrap();
    assert_eq!(
        out,
        vec![
            0, 2, // count
            0, 0, 0, 0, 0, 0, 0, 0, // 0
            0, 0, 0, 0, 0, 0, 1, 0, // 256
        ]
    );

    // The first element failure ends the write with that error.
    let mut out: Vec<u8> = Vec::new();
    let r = write_len_vec(&mut out, 3, |i: usize| {
        if i < 2 {
            Ok(vec![i as u8])
        } else {
            Err(MuxError::Underflow)
        }
    });
    assert_eq!(r, Err(MuxError::Underflow));
}
