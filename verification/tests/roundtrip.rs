use mux::misc::{Context, MuxError, Trace};
use mux::reader::{read_be_u32_frame, read_mux_rmsg_msg, read_mux_tag, read_mux_tmsg,
    read_mux_tmsg_msg, read_mux_trace};
use mux::writer::{write_be_u32_frame, write_mux_rmsg_msg, write_mux_tag, write_mux_tmsg,
    write_mux_tmsg_msg, write_mux_trace};
use mux::{MsgType, Rmsg, Tag, Tmsg};

#[test]
fn frame_round_trip_empty() {
    let mut out: Vec<u8> = Vec::new();
    write_be_u32_frame(&mut out, &[]).unwrap();
    assert_eq!(out, vec![0, 0, 0, 0]);
    let (frame, end) = read_be_u32_frame(&out, 0).unwrap();
    assert_eq!(frame, Vec::<u8>::new());
    assert_eq!(end, 4);
}

#[test]
fn frame_round_trip_bytes() {
    let payload = vec![1, 2, 3, 250, 251, 252];
    let mut out: Vec<u8> = Vec::new();
    write_be_u32_frame(&mut out, &payload).unwrap();
    assert_eq!(out, vec![0, 0, 0, 6, 1, 2, 3, 250, 251, 252]);
    let (frame, end) = read_be_u32_frame(&out, 0).unwrap();
    assert_eq!(frame, payload);
    assert_eq!(end, out.len());
}

#[test]
fn tag_round_trip_extremes() {
    for tag in [Tag(0, 0, 0), Tag(255, 255, 255), Tag(0, 1, 2)] {
        let mut out: Vec<u8> = Vec::new();
        write_mux_tag(&mut out, &tag);
        assert_eq!(out.len(), 3);
        let (back, end) = read_mux_tag(&out, 0).unwrap();
        assert_eq!(back, tag);
        assert_eq!(end, 3);
    }
    // The high tag survives an envelope too: no sign extension anywhere.
    let mut out: Vec<u8> = Vec::new();
    write_mux_tmsg(&mut out, &Tag(255, 255, 255), &Tmsg::Ping).unwrap();
    assert_eq!(out, vec![65, 255, 255, 255]);
    let (tag, msg) = read_mux_tmsg(&out, 0).unwrap();
    assert_eq!(tag, Tag(255, 255, 255));
    assert_eq!(msg, Tmsg::Ping);
}

#[test]
fn trace_absent_round_trip() {
    let mut out: Vec<u8> = Vec::new();
    write_mux_trace(&mut out, &None);
    assert_eq!(out, vec![0]);
    let (trace, end) = read_mux_trace(&out, 0).unwrap();
    assert_eq!(trace, None);
    assert_eq!(end, 1);
}

#[test]
fn trace_present_decodes_from_wire_keys() {
    // A trace written with the decoder's key table: key 1 carries the three
    // identifiers, key 2 the flags.
    let mut bytes: Vec<u8> = vec![2, 1, 24];
    bytes.extend_from_slice(&[0, 0, 0, 0, 0, 0, 0, 1]); // span
    bytes.extend_from_slice(&[0, 0, 0, 0, 0, 0, 0, 2]); // parent
    bytes.extend_from_slice(&[0, 0, 0, 0, 0, 0, 0, 3]); // trace
    bytes.extend_from_slice(&[2, 1, 7]); // flags
    let (trace, end) = read_mux_trace(&bytes, 0).unwrap();
    assert_eq!(
        trace,
        Some(Trace { span_id: 1, parent_id: 2, trace_id: 3, flags: 7 })
    );
    assert_eq!(end, bytes.len());
}

#[test]
fn trace_flags_take_last_byte() {
    // Earlier bytes of the flags payload are reserved and ignored.
    let mut bytes: Vec<u8> = vec![2, 1, 24];
    bytes.extend_from_slice(&[0; 24]);
    bytes.extend_from_slice(&[2, 3, 9, 9, 5]);
    let (trace, _) = read_mux_trace(&bytes, 0).unwrap();
    assert_eq!(trace.unwrap().flags, 5);

    // An empty flags payload leaves the flags at zero.
    let mut bytes: Vec<u8> = vec![2, 1, 24];
    bytes.extend_from_slice(&[0; 24]);
    bytes.extend_from_slice(&[2, 0]);
    let (trace, _) = read_mux_trace(&bytes, 0).unwrap();
    assert_eq!(trace.unwrap().flags, 0);
}

#[test]
fn trace_flags_without_ids_is_absent() {
    // Key 2 alone never fabricates a presence.
    let bytes = [1, 2, 1, 42];
    let (trace, end) = read_mux_trace(&bytes, 0).unwrap();
    assert_eq!(trace, None);
    assert_eq!(end, 4);
}

#[test]
fn trace_present_does_not_round_trip() {
    // The fixed wire contract writes the identifiers under key 0, which the
    // decoder's key table rejects; a present trace is the one value that
    // cannot be read back.
    let trace = Some(Trace { span_id: 1, parent_id: 2, trace_id: 3, flags: 0 });
    let mut out: Vec<u8> = Vec::new();
    write_mux_trace(&mut out, &trace);
    assert_eq!(out[0], 2);
    assert_eq!(out[1], 0);
    assert_eq!(read_mux_trace(&out, 0), Err(MuxError::UnknownTraceKey(0)));
}

fn rmsg_round_trip(expected_len: usize, msg: &Rmsg) {
    let mut out: Vec<u8> = Vec::new();
    write_mux_rmsg_msg(&mut out, msg).unwrap();
    assert_eq!(out.len(), expected_len);
    let decoded = read_mux_rmsg_msg(&out, 0, msg.get_type()).unwrap();
    assert_eq!(decoded, *msg);
}

#[test]
fn rmsg_bodies_round_trip() {
    rmsg_round_trip(1 + 2, &Rmsg::ReqOk(b"hi".to_vec()));
    rmsg_round_trip(1 + 3, &Rmsg::ReqError("bad".to_string()));
    rmsg_round_trip(1, &Rmsg::ReqNack);
    rmsg_round_trip(
        1 + 2 + (2 + 1 + 2 + 2) + 4,
        &Rmsg::DispatchOk(vec![Context::new(vec![9], vec![8, 7])], b"nope".to_vec()),
    );
    rmsg_round_trip(
        1 + 2 + 4,
        &Rmsg::DispatchError(Vec::new(), "oops".to_string()),
    );
    rmsg_round_trip(
        1 + 2 + (2 + 1 + 2 + 1),
        &Rmsg::DispatchNack(vec![Context::new(vec![1], vec![2])]),
    );
    rmsg_round_trip(0, &Rmsg::Drain);
    rmsg_round_trip(0, &Rmsg::Ping);
    rmsg_round_trip(5, &Rmsg::Error("gone!".to_string()));
}

#[test]
fn tlease_round_trip_extremes() {
    for amount in [0u64, 1, 0x1_0000_0000, u64::MAX] {
        let mut out: Vec<u8> = Vec::new();
        write_mux_tmsg_msg(&mut out, &Tmsg::Lease(0, amount)).unwrap();
        assert_eq!(out.len(), 9);
        let decoded = read_mux_tmsg_msg(&out, 0, MsgType::Tlease).unwrap();
        assert_eq!(decoded, Tmsg::Lease(0, amount));
    }
}

#[test]
fn dispatch_empty_collections_stay_empty() {
    // Empty contexts and an empty delegation table survive the round trip as
    // empty, not as some default.
    let msg = Tmsg::Dispatch(
        Vec::new(),
        "".to_string(),
        mux::misc::Dtab::empty(),
        Vec::new(),
    );
    let mut out: Vec<u8> = Vec::new();
    write_mux_tmsg_msg(&mut out, &msg).unwrap();
    assert_eq!(out, vec![0, 0, 0, 0, 0, 0]);
    let decoded = read_mux_tmsg_msg(&out, 0, MsgType::Tdispatch).unwrap();
    assert_eq!(decoded, msg);
}

#[test]
fn msg_type_code_table() {
    let table = [
        (MsgType::Treq, 1i8),
        (MsgType::Rreq, -1),
        (MsgType::Tdispatch, 2),
        (MsgType::Rdispatch, -2),
        (MsgType::Tdrain, 64),
        (MsgType::Rdrain, -64),
        (MsgType::Tping, 65),
        (MsgType::Rping, -65),
        (MsgType::Tdiscarded, 66),
        (MsgType::Tlease, 67),
        (MsgType::Rerr, -128),
    ];
    for (t, code) in table {
        assert_eq!(t.clone().to_i8(), code);
        assert_eq!(MsgType::from_i8(code), Some(t));
    }
    assert_eq!(MsgType::from_i8(0), None);
    assert_eq!(MsgType::from_i8(5), None);
    assert_eq!(MsgType::from_i8(-3), None);
}
