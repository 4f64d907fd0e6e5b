use mux::misc::{Context, Dtab, MuxError};
use mux::reader::{read_be_u32_frame, read_len_buf, read_len_string, read_mux_framed_tmsg,
    read_mux_rmsg_msg, read_mux_tmsg, read_mux_trace};
use mux::writer::{write_len_buf, write_len_str, write_mux_contexts, write_mux_tmsg_msg};
use mux::{MsgType, Tmsg};

#[test]
fn truncated_frame() {
    // The declared length exceeds the available bytes.
    assert_eq!(
        read_be_u32_frame(&[0, 0, 0, 5, 1, 2], 0),
        Err(MuxError::Truncated)
    );
    // Even the length prefix itself is short.
    assert_eq!(read_be_u32_frame(&[0, 0], 0), Err(MuxError::Truncated));
    assert_eq!(
        read_mux_framed_tmsg(&[0, 0, 0, 9, 65, 1, 2, 3], 0),
        Err(MuxError::Truncated)
    );
}

#[test]
fn unknown_type_code() {
    // Type code 5 is unmapped: the decoder fails before interpreting the
    // bytes that would otherwise be the tag and body.
    assert_eq!(
        read_mux_tmsg(&[5, 0, 0, 0], 0),
        Err(MuxError::UnknownMessageType(5))
    );
    // 0xFD is -3, also unmapped, and not sign-confused with 253.
    assert_eq!(
        read_mux_tmsg(&[0xFD, 0, 0, 0], 0),
        Err(MuxError::UnknownMessageType(-3))
    );
}

#[test]
fn unknown_status() {
    assert_eq!(
        read_mux_rmsg_msg(&[3], 0, MsgType::Rreq),
        Err(MuxError::UnknownStatus(3))
    );
    // An out-of-range Rdispatch status fails before the contexts are read.
    assert_eq!(
        read_mux_rmsg_msg(&[9, 0xFF], 0, MsgType::Rdispatch),
        Err(MuxError::UnknownStatus(9))
    );
}

#[test]
fn invalid_utf8() {
    assert_eq!(
        read_len_string(&[0, 2, 0xFF, 0xFE], 0),
        Err(MuxError::InvalidUtf8)
    );
    assert_eq!(
        read_mux_rmsg_msg(&[0xC3, 0x28], 0, MsgType::Rerr),
        Err(MuxError::InvalidUtf8)
    );
}

#[test]
fn field_underflow() {
    assert_eq!(read_len_buf(&[0, 3, 1, 2], 0), Err(MuxError::Underflow));
    assert_eq!(read_len_buf(&[7], 0), Err(MuxError::Underflow));
}

#[test]
fn malformed_trace_keys() {
    // Key 3 is outside the known key set.
    assert_eq!(
        read_mux_trace(&[1, 3, 0], 0),
        Err(MuxError::UnknownTraceKey(3))
    );
    // Key 1 must announce exactly 24 bytes.
    assert_eq!(
        read_mux_trace(&[1, 1, 23, 0, 0], 0),
        Err(MuxError::InvalidTraceKey)
    );
    // Key 1 announcing 24 bytes but running short underflows.
    assert_eq!(
        read_mux_trace(&[1, 1, 24, 9, 9, 9], 0),
        Err(MuxError::Underflow)
    );
}

#[test]
fn encoding_overflow() {
    let big = vec![0u8; 0x1_0000];
    let mut out: Vec<u8> = Vec::new();
    assert_eq!(write_len_buf(&mut out, &big), Err(MuxError::EncodingOverflow));
    assert_eq!(out, Vec::<u8>::new());

    let long_string = "x".repeat(0x1_0000);
    assert_eq!(
        write_len_str(&mut out, &long_string),
        Err(MuxError::EncodingOverflow)
    );
    assert_eq!(out, Vec::<u8>::new());

    let bad_context = vec![Context::new(big, Vec::new())];
    assert_eq!(
        write_mux_contexts(&mut out, &bad_context),
        Err(MuxError::EncodingOverflow)
    );

    let mut out2: Vec<u8> = Vec::new();
    let msg = Tmsg::Dispatch(Vec::new(), long_string, Dtab::empty(), Vec::new());
    assert_eq!(
        write_mux_tmsg_msg(&mut out2, &msg),
        Err(MuxError::EncodingOverflow)
    );
}
