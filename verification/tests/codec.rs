use mux::misc::{Context, Dentry, Dtab};
use mux::reader::{read_mux_contexts, read_mux_framed_rmsg, read_mux_framed_tmsg, read_mux_rmsg};
use mux::writer::{write_mux_framed_rmsg, write_mux_framed_tmsg};
use mux::{Rmsg, Tag, Tmsg};

fn tdispatch_buf() -> Vec<u8> {
    vec![
        0, 0, 0, 65, // frame size
        2, // TDISPATCH
        4, 7, 9, // tag
        // contexts:
        0, 2, // 2 contexts
        // context 0 key
        0, 4, // length
        1, 2, 3, 4, //
        // context 0 val
        0, 2, // length
        6, 7, //
        // context 1 key
        0, 2, // length
        3, 4, //
        // context 1 val
        0, 3, // length
        6, 7, 8, //
        // dst
        0, 4, // length
        b'/', 66, 65, 68, // "/BAD"
        // dtab: /BAD => /DAD
        0, 1, // length
        0, 4, // source length
        b'/', 66, 65, 68, // "/BAD"
        0, 4, // tree length
        b'/', 68, 65, 68, // "/DAD"
        // data: [0 .. 20)
        0, 1, 2, 3, 4, 5, 6, 7, 8, 9, 10, 11, 12, 13, 14, 15, 16, 17, 18, 19,
    ]
}

fn tdispatch_msg() -> Tmsg {
    Tmsg::Dispatch(
        vec![
            Context::new(vec![1, 2, 3, 4], vec![6, 7]),
            Context::new(vec![3, 4], vec![6, 7, 8]),
        ],
        "/BAD".to_string(),
        Dtab(vec![Dentry::new("/BAD".to_string(), "/DAD".to_string())]),
        vec![
            0, 1, 2, 3, 4, 5, 6, 7, 8, 9, 10, 11, 12, 13, 14, 15, 16, 17, 18, 19,
        ],
    )
}

#[test]
fn codec_tdispatch() {
    let tag = Tag(4, 7, 9);
    let msg = tdispatch_msg();

    /* reader */
    {
        let one = tdispatch_buf();
        let mut buf = Vec::with_capacity(one.len() * 2);
        buf.extend_from_slice(&one);
        buf.extend_from_slice(&one);

        let ((t0, m0), pos) = read_mux_framed_tmsg(&buf, 0).unwrap();
        assert_eq!(t0, tag);
        assert_eq!(m0, msg);
        let ((t1, m1), _) = read_mux_framed_tmsg(&buf, pos).unwrap();
        assert_eq!(t1, tag);
        assert_eq!(m1, msg);
    }

    /* writer */
    {
        let mut writer: Vec<u8> = Vec::new();
        write_mux_framed_tmsg(&mut writer, &tag, &msg).unwrap();
        write_mux_framed_tmsg(&mut writer, &tag, &msg).unwrap();
        write_mux_framed_tmsg(&mut writer, &tag, &msg).unwrap();

        let ((t0, m0), p0) = read_mux_framed_tmsg(&writer, 0).unwrap();
        assert_eq!(t0, tag);
        assert_eq!(m0, msg);

        let ((t1, m1), p1) = read_mux_framed_tmsg(&writer, p0).unwrap();
        assert_eq!(t1, tag);
        assert_eq!(m1, msg);

        let ((t2, m2), _) = read_mux_framed_tmsg(&writer, p1).unwrap();
        assert_eq!(t2, tag);
        assert_eq!(m2, msg);
    }
}

#[test]
fn codec_rdispatch() {
    let msg = Rmsg::DispatchOk(Vec::new(), b"nope".to_vec());
    let tag = Tag(1, 2, 3);

    let mut writer: Vec<u8> = Vec::new();
    write_mux_framed_rmsg(&mut writer, &tag, &msg).unwrap();
    let bytes = writer;
    let expected = vec![
        0x00, 0x00, 0x00, 0x0b, // frame
        0xfe, // msg type: rdispatch (-2)
        0x01, 0x02, 0x03, // tag
        0x00, // status
        0x00, 0x00, // contexts
        0x6e, 0x6f, 0x70, 0x65, // "nope"
    ];
    assert_eq!(bytes, expected);

    {
        let (contexts, _) = read_mux_contexts(&bytes, 8).unwrap();
        assert_eq!(contexts, vec![]);
    }

    {
        let (t, m) = read_mux_rmsg(&bytes, 4).unwrap();
        assert_eq!(t, tag);
        assert_eq!(m, msg);
    }

    {
        let ((t, m), _) = read_mux_framed_rmsg(&bytes, 0).unwrap();
        assert_eq!(t, tag);
        assert_eq!(m, msg);
    }
}
