//! The round-trip laws of the codec: decoding what the encoders produce
//! yields the original value back, at every layer of the wire format.
//!
//! Each lemma is stated over the specification functions of [`crate::wire`];
//! the executable readers and writers are proved equal to those functions,
//! so the laws carry over to them.  Every lemma allows arbitrary trailing
//! bytes after the encoded value, so the laws compose across consecutive
//! fields and consecutive frames of one stream.

use vstd::prelude::*;
use vstd::utf8::{encode_utf8, encode_utf8_decode_utf8, encode_utf8_valid_utf8};

use crate::misc::{ContextV, DentryV, MuxError, Trace};
use crate::proto::{spec_msg_type_code, spec_rmsg_type, spec_tmsg_type, RmsgV, Tag, TmsgV};
use crate::wire::{be_bytes, be_val, buf_ok, code_byte, ctx_ok, ctxs_ok, dec_be_u16,
    dec_context, dec_contexts, dec_contexts_n, dec_dentry, dec_dtab, dec_dtab_n, dec_frame,
    dec_framed_rmsg, dec_framed_tmsg, dec_len_buf, dec_len_str, dec_rmsg, dec_rmsg_body,
    dec_tag, dec_tmsg, dec_tmsg_body, dec_trace, dec_trace_keys, dentry_ok, dtab_ok,
    enc_context, enc_contexts, enc_contexts_items, enc_dentry, enc_dtab, enc_dtab_items,
    enc_frame, enc_framed_rmsg, enc_framed_tmsg, enc_len_buf, enc_len_str, enc_rmsg,
    enc_rmsg_body, enc_tag, enc_tmsg, enc_tmsg_body, enc_trace, frame_ok, framed_rmsg_ok,
    framed_tmsg_ok, lemma_be_bytes_len, lemma_be_val_of_be_bytes,
    lemma_byte_code_of_code_byte, lemma_pow256_small, pow256, rmsg_ok, str_ok, tmsg_ok};
use crate::proto::lemma_msg_type_code_bijective;

verus! {

broadcast use vstd::seq::group_seq_axioms;

/// A big-endian number read back from its own encoding, with anything after
/// it, is the number.
proof fn lemma_be_prefix(v: nat, n: nat, rest: Seq<u8>)
    requires
        v < pow256(n),
    ensures
        (be_bytes(v, n) + rest).len() >= n,
        (be_bytes(v, n) + rest).take(n as int) == be_bytes(v, n),
        be_val((be_bytes(v, n) + rest).take(n as int)) == v,
        (be_bytes(v, n) + rest).skip(n as int) == rest,
{
    lemma_be_bytes_len(v, n);
    assert((be_bytes(v, n) + rest).take(n as int) =~= be_bytes(v, n));
    assert((be_bytes(v, n) + rest).skip(n as int) =~= rest);
    lemma_be_val_of_be_bytes(v, n);
}

/// A length-prefixed buffer round-trips: decoding its encoding, with
/// anything after it, yields the buffer and consumes exactly its bytes.
pub proof fn lemma_len_buf_round_trip(b: Seq<u8>, rest: Seq<u8>)
    requires
        buf_ok(b),
    ensures
        enc_len_buf(b).len() == 2 + b.len(),
        dec_len_buf(enc_len_buf(b) + rest) == Ok::<_, MuxError>((b, 2 + b.len() as int)),
        (enc_len_buf(b) + rest).skip(2 + b.len() as int) == rest,
{
    let s = enc_len_buf(b) + rest;
    lemma_pow256_small();
    lemma_be_prefix(b.len(), 2, b + rest);
    assert(enc_len_buf(b) + rest =~= be_bytes(b.len(), 2) + (b + rest));
    lemma_be_bytes_len(b.len(), 2);
    assert(s.skip(2) =~= b + rest);
    assert(s.take(2) =~= be_bytes(b.len(), 2));
    assert(dec_be_u16(s) == Ok::<_, MuxError>((b.len() as u16, 2int)));
    assert(s.skip(2).take(b.len() as int) =~= b);
    assert(s.skip(2 + b.len() as int) =~= rest);
}

/// A length-prefixed string round-trips through its UTF-8 bytes.
pub proof fn lemma_len_str_round_trip(t: Seq<char>, rest: Seq<u8>)
    requires
        str_ok(t),
    ensures
        enc_len_str(t).len() == 2 + encode_utf8(t).len(),
        dec_len_str(enc_len_str(t) + rest) == Ok::<_, MuxError>((
            t,
            2 + encode_utf8(t).len() as int,
        )),
        (enc_len_str(t) + rest).skip(2 + encode_utf8(t).len() as int) == rest,
{
    lemma_len_buf_round_trip(encode_utf8(t), rest);
    encode_utf8_valid_utf8(t);
    encode_utf8_decode_utf8(t);
}

/// Tag fidelity: every one of the `2^24` possible tags, including the marker
/// tag and the all-ones tag, reads back from its three encoded bytes exactly,
/// with no sign extension.
pub proof fn lemma_tag_round_trip(t: Tag, rest: Seq<u8>)
    ensures
        enc_tag(t).len() == 3,
        dec_tag(enc_tag(t) + rest) == Ok::<_, MuxError>((t, 3int)),
        (enc_tag(t) + rest).skip(3) == rest,
{
    let s = enc_tag(t) + rest;
    assert(s[0] == t.0);
    assert(s[1] == t.1);
    assert(s[2] == t.2);
    assert(s.skip(3) =~= rest);
}

/// Idempotent absence: an absent trace encodes to the single zero byte and
/// decodes back to absence, never to a default-valued presence.
pub proof fn lemma_trace_absent_round_trip(rest: Seq<u8>)
    ensures
        enc_trace(None).len() == 1,
        dec_trace(enc_trace(None) + rest) == Ok::<_, MuxError>((None::<Trace>, 1int)),
        (enc_trace(None) + rest).skip(1) == rest,
{
    let s = enc_trace(None) + rest;
    assert(s[0] == 0);
    assert(s.skip(1) =~= rest);
    assert(dec_trace_keys(s.skip(1), 0, None, 0) == Ok::<_, MuxError>((
        (None::<(u64, u64, u64)>, 0u8),
        0int,
    )));
}

/// A present trace does not round-trip: the fixed wire contract writes its
/// identifiers under key `0`, which the decoder's key table does not know.
/// Decoding an encoded present trace therefore fails, and the round-trip
/// laws for whole messages exclude a `Req` that carries one.
pub proof fn lemma_trace_present_rejected(tr: Trace, rest: Seq<u8>)
    ensures
        dec_trace(enc_trace(Some(tr)) + rest) == Err::<(Option<Trace>, int), MuxError>(
            MuxError::UnknownTraceKey(0),
        ),
{
    let s = enc_trace(Some(tr)) + rest;
    assert(s[0] == 2);
    assert(s.skip(1)[0] == 0);
    assert(s.skip(1)[1] == 24);
    assert(s.skip(1).len() >= 2);
}

/// A context round-trips: key, then value.
pub proof fn lemma_context_round_trip(c: ContextV, rest: Seq<u8>)
    requires
        ctx_ok(c),
    ensures
        enc_context(c).len() == 4 + c.key.len() + c.val.len(),
        dec_context(enc_context(c) + rest) == Ok::<_, MuxError>((c, enc_context(c).len() as int)),
        (enc_context(c) + rest).skip(enc_context(c).len() as int) == rest,
{
    let s = enc_context(c) + rest;
    assert(s =~= enc_len_buf(c.key) + (enc_len_buf(c.val) + rest));
    lemma_len_buf_round_trip(c.key, enc_len_buf(c.val) + rest);
    let k1 = 2 + c.key.len() as int;
    assert(s.skip(k1) =~= enc_len_buf(c.val) + rest);
    lemma_len_buf_round_trip(c.val, rest);
    let k2 = 2 + c.val.len() as int;
    assert(c == (ContextV { key: c.key, val: c.val }));
    assert(s.skip(k1).skip(k2) =~= s.skip(k1 + k2));
    assert(s.skip(enc_context(c).len() as int) =~= rest);
}

/// A run of contexts round-trips item by item.
proof fn lemma_contexts_items_round_trip(cs: Seq<ContextV>, rest: Seq<u8>)
    requires
        forall|i: int| 0 <= i < cs.len() ==> ctx_ok(#[trigger] cs[i]),
    ensures
        dec_contexts_n(enc_contexts_items(cs) + rest, cs.len()) == Ok::<_, MuxError>((
            cs,
            enc_contexts_items(cs).len() as int,
        )),
        (enc_contexts_items(cs) + rest).skip(enc_contexts_items(cs).len() as int) == rest,
    decreases cs.len(),
{
    let s = enc_contexts_items(cs) + rest;
    if cs.len() == 0 {
        assert(enc_contexts_items(cs) =~= Seq::<u8>::empty());
        assert(s =~= rest);
        assert(s.skip(0) =~= rest);
        assert(dec_contexts_n(s, 0) == Ok::<_, MuxError>((Seq::<ContextV>::empty(), 0int)));
        assert(cs =~= Seq::<ContextV>::empty());
    } else {
        let c = cs.first();
        let tail = cs.drop_first();
        assert(s =~= enc_context(c) + (enc_contexts_items(tail) + rest));
        lemma_context_round_trip(c, enc_contexts_items(tail) + rest);
        let k = enc_context(c).len() as int;
        assert(s.skip(k) =~= enc_contexts_items(tail) + rest);
        assert(forall|i: int| 0 <= i < tail.len() ==> ctx_ok(#[trigger] tail[i])) by {
            assert(forall|i: int| 0 <= i < tail.len() ==> tail[i] == cs[i + 1]);
        }
        lemma_contexts_items_round_trip(tail, rest);
        assert(seq![c] + tail =~= cs);
        assert(s.skip(k).skip(enc_contexts_items(tail).len() as int) =~= s.skip(
            enc_contexts_items(cs).len() as int));
    }
}

/// A context list round-trips: count, then the contexts in order.
pub proof fn lemma_contexts_round_trip(cs: Seq<ContextV>, rest: Seq<u8>)
    requires
        ctxs_ok(cs),
    ensures
        enc_contexts(cs).len() == 2 + enc_contexts_items(cs).len(),
        dec_contexts(enc_contexts(cs) + rest) == Ok::<_, MuxError>((
            cs,
            enc_contexts(cs).len() as int,
        )),
        (enc_contexts(cs) + rest).skip(enc_contexts(cs).len() as int) == rest,
{
    let s = enc_contexts(cs) + rest;
    lemma_pow256_small();
    lemma_be_prefix(cs.len(), 2, enc_contexts_items(cs) + rest);
    assert(s =~= be_bytes(cs.len(), 2) + (enc_contexts_items(cs) + rest));
    lemma_be_bytes_len(cs.len(), 2);
    assert(s.take(2) =~= be_bytes(cs.len(), 2));
    assert(dec_be_u16(s) == Ok::<_, MuxError>((cs.len() as u16, 2int)));
    assert(s.skip(2) =~= enc_contexts_items(cs) + rest);
    lemma_contexts_items_round_trip(cs, rest);
    assert((cs.len() as u16) as nat == cs.len());
    assert(s.skip(2).skip(enc_contexts_items(cs).len() as int) =~= s.skip(
        enc_contexts(cs).len() as int));
}

/// A delegation entry round-trips: source, then target.
pub proof fn lemma_dentry_round_trip(d: DentryV, rest: Seq<u8>)
    requires
        dentry_ok(d),
    ensures
        enc_dentry(d).len() == 4 + encode_utf8(d.src).len() + encode_utf8(d.tree).len(),
        dec_dentry(enc_dentry(d) + rest) == Ok::<_, MuxError>((d, enc_dentry(d).len() as int)),
        (enc_dentry(d) + rest).skip(enc_dentry(d).len() as int) == rest,
{
    let s = enc_dentry(d) + rest;
    assert(s =~= enc_len_str(d.src) + (enc_len_str(d.tree) + rest));
    lemma_len_str_round_trip(d.src, enc_len_str(d.tree) + rest);
    let k1 = 2 + encode_utf8(d.src).len() as int;
    assert(s.skip(k1) =~= enc_len_str(d.tree) + rest);
    lemma_len_str_round_trip(d.tree, rest);
    let k2 = 2 + encode_utf8(d.tree).len() as int;
    assert(d == (DentryV { src: d.src, tree: d.tree }));
    assert(s.skip(k1).skip(k2) =~= s.skip(k1 + k2));
    assert(s.skip(enc_dentry(d).len() as int) =~= rest);
}

/// A run of delegation entries round-trips item by item.
proof fn lemma_dtab_items_round_trip(ds: Seq<DentryV>, rest: Seq<u8>)
    requires
        forall|i: int| 0 <= i < ds.len() ==> dentry_ok(#[trigger] ds[i]),
    ensures
        dec_dtab_n(enc_dtab_items(ds) + rest, ds.len()) == Ok::<_, MuxError>((
            ds,
            enc_dtab_items(ds).len() as int,
        )),
        (enc_dtab_items(ds) + rest).skip(enc_dtab_items(ds).len() as int) == rest,
    decreases ds.len(),
{
    let s = enc_dtab_items(ds) + rest;
    if ds.len() == 0 {
        assert(enc_dtab_items(ds) =~= Seq::<u8>::empty());
        assert(s =~= rest);
        assert(s.skip(0) =~= rest);
        assert(dec_dtab_n(s, 0) == Ok::<_, MuxError>((Seq::<DentryV>::empty(), 0int)));
        assert(ds =~= Seq::<DentryV>::empty());
    } else {
        let d = ds.first();
        let tail = ds.drop_first();
        assert(s =~= enc_dentry(d) + (enc_dtab_items(tail) + rest));
        lemma_dentry_round_trip(d, enc_dtab_items(tail) + rest);
        let k = enc_dentry(d).len() as int;
        assert(s.skip(k) =~= enc_dtab_items(tail) + rest);
        assert(forall|i: int| 0 <= i < tail.len() ==> dentry_ok(#[trigger] tail[i])) by {
            assert(forall|i: int| 0 <= i < tail.len() ==> tail[i] == ds[i + 1]);
        }
        lemma_dtab_items_round_trip(tail, rest);
        assert(seq![d] + tail =~= ds);
        assert(s.skip(k).skip(enc_dtab_items(tail).len() as int) =~= s.skip(
            enc_dtab_items(ds).len() as int));
    }
}

/// A delegation table round-trips: count, then the entries in order.
pub proof fn lemma_dtab_round_trip(ds: Seq<DentryV>, rest: Seq<u8>)
    requires
        dtab_ok(ds),
    ensures
        enc_dtab(ds).len() == 2 + enc_dtab_items(ds).len(),
        dec_dtab(enc_dtab(ds) + rest) == Ok::<_, MuxError>((ds, enc_dtab(ds).len() as int)),
        (enc_dtab(ds) + rest).skip(enc_dtab(ds).len() as int) == rest,
{
    let s = enc_dtab(ds) + rest;
    lemma_pow256_small();
    lemma_be_prefix(ds.len(), 2, enc_dtab_items(ds) + rest);
    assert(s =~= be_bytes(ds.len(), 2) + (enc_dtab_items(ds) + rest));
    lemma_be_bytes_len(ds.len(), 2);
    assert(s.take(2) =~= be_bytes(ds.len(), 2));
    assert(dec_be_u16(s) == Ok::<_, MuxError>((ds.len() as u16, 2int)));
    assert(s.skip(2) =~= enc_dtab_items(ds) + rest);
    lemma_dtab_items_round_trip(ds, rest);
    assert((ds.len() as u16) as nat == ds.len());
    assert(s.skip(2).skip(enc_dtab_items(ds).len() as int) =~= s.skip(
        enc_dtab(ds).len() as int));
}

/// The body of a request-direction message round-trips under its own kind.
/// A `Req` must carry no trace: the fixed trace key constants make a present
/// trace unreadable (see [`lemma_trace_present_rejected`]), so it is the one
/// value the codec cannot bring back.
#[verifier::rlimit(50)]
pub proof fn lemma_tmsg_body_round_trip(m: TmsgV)
    requires
        tmsg_ok(m),
        m matches TmsgV::Req(trace, _) ==> trace is None,
    ensures
        dec_tmsg_body(spec_tmsg_type(m), enc_tmsg_body(m)) == Ok::<TmsgV, MuxError>(m),
{
    let s = enc_tmsg_body(m);
    match m {
        TmsgV::Req(trace, body) => {
            lemma_trace_absent_round_trip(body);
            assert(s =~= enc_trace(None) + body);
        },
        TmsgV::Dispatch(cs, dst, ds, body) => {
            let r1 = enc_len_str(dst) + (enc_dtab(ds) + body);
            assert(s =~= enc_contexts(cs) + r1);
            lemma_contexts_round_trip(cs, r1);
            let k1 = enc_contexts(cs).len() as int;
            assert(s.skip(k1) =~= r1);
            let r2 = enc_dtab(ds) + body;
            lemma_len_str_round_trip(dst, r2);
            let k2 = 2 + encode_utf8(dst).len() as int;
            assert(s.skip(k1).skip(k2) =~= s.skip(k1 + k2));
            assert(s.skip(k1 + k2) =~= r2);
            lemma_dtab_round_trip(ds, body);
            let k3 = enc_dtab(ds).len() as int;
            assert(s.skip(k1 + k2).skip(k3) =~= s.skip(k1 + k2 + k3));
            assert(s.skip(k1 + k2 + k3) =~= body);
        },
        TmsgV::Drain => {},
        TmsgV::Ping => {},
        TmsgV::Discarded(which, msg) => {
            lemma_tag_round_trip(which, encode_utf8(msg));
            assert(s =~= enc_tag(which) + encode_utf8(msg));
            assert(s.skip(3) =~= encode_utf8(msg));
            encode_utf8_valid_utf8(msg);
            encode_utf8_decode_utf8(msg);
        },
        TmsgV::Lease(unit, amount) => {
            assert(s[0] == unit);
            assert(s.skip(1) =~= be_bytes(amount as nat, 8));
            lemma_pow256_small();
            lemma_be_prefix(amount as nat, 8, Seq::empty());
            assert(be_bytes(amount as nat, 8) + Seq::<u8>::empty() =~= be_bytes(
                amount as nat, 8));
            assert(s.skip(1).take(8) =~= be_bytes(amount as nat, 8)) by {
                lemma_be_bytes_len(amount as nat, 8);
            }
        },
    }
}

/// The body of a response-direction message round-trips under its own kind,
/// for every constructible value.
pub proof fn lemma_rmsg_body_round_trip(m: RmsgV)
    requires
        rmsg_ok(m),
    ensures
        dec_rmsg_body(spec_rmsg_type(m), enc_rmsg_body(m)) == Ok::<RmsgV, MuxError>(m),
{
    let s = enc_rmsg_body(m);
    match m {
        RmsgV::ReqOk(body) => {
            assert(s[0] == 0);
            assert(s.skip(1) =~= body);
        },
        RmsgV::ReqError(msg) => {
            assert(s[0] == 1);
            assert(s.skip(1) =~= encode_utf8(msg));
            encode_utf8_valid_utf8(msg);
            encode_utf8_decode_utf8(msg);
        },
        RmsgV::ReqNack => {
            assert(s[0] == 2);
        },
        RmsgV::DispatchOk(cs, body) => {
            assert(s[0] == 0);
            assert(s.skip(1) =~= enc_contexts(cs) + body);
            lemma_contexts_round_trip(cs, body);
            let k2 = enc_contexts(cs).len() as int;
            assert(s.skip(1).skip(k2) =~= s.skip(1 + k2));
            assert(s.skip(1 + k2) =~= body);
        },
        RmsgV::DispatchError(cs, msg) => {
            assert(s[0] == 1);
            assert(s.skip(1) =~= enc_contexts(cs) + encode_utf8(msg));
            lemma_contexts_round_trip(cs, encode_utf8(msg));
            let k2 = enc_contexts(cs).len() as int;
            assert(s.skip(1).skip(k2) =~= s.skip(1 + k2));
            assert(s.skip(1 + k2) =~= encode_utf8(msg));
            encode_utf8_valid_utf8(msg);
            encode_utf8_decode_utf8(msg);
        },
        RmsgV::DispatchNack(cs) => {
            assert(s[0] == 2);
            assert(s.skip(1) =~= enc_contexts(cs) + Seq::<u8>::empty());
            lemma_contexts_round_trip(cs, Seq::empty());
        },
        RmsgV::Drain => {},
        RmsgV::Ping => {},
        RmsgV::Error(msg) => {
            assert(s =~= encode_utf8(msg));
            encode_utf8_valid_utf8(msg);
            encode_utf8_decode_utf8(msg);
        },
    }
}

/// Round-trip for whole request-direction messages: decoding an encoded
/// message yields the same tag and the same message, structurally.
pub proof fn lemma_tmsg_round_trip(tag: Tag, m: TmsgV)
    requires
        tmsg_ok(m),
        m matches TmsgV::Req(trace, _) ==> trace is None,
    ensures
        dec_tmsg(enc_tmsg(tag, m)) == Ok::<(Tag, TmsgV), MuxError>((tag, m)),
{
    let s = enc_tmsg(tag, m);
    let code = spec_msg_type_code(spec_tmsg_type(m));
    assert(s[0] == code_byte(code));
    lemma_byte_code_of_code_byte(code);
    lemma_msg_type_code_bijective();
    assert(s.skip(1) =~= enc_tag(tag) + enc_tmsg_body(m));
    lemma_tag_round_trip(tag, enc_tmsg_body(m));
    assert(s.skip(1).skip(3) =~= s.skip(4));
    assert(s.skip(4) =~= enc_tmsg_body(m));
    lemma_tmsg_body_round_trip(m);
}

/// Round-trip for whole response-direction messages.
pub proof fn lemma_rmsg_round_trip(tag: Tag, m: RmsgV)
    requires
        rmsg_ok(m),
    ensures
        dec_rmsg(enc_rmsg(tag, m)) == Ok::<(Tag, RmsgV), MuxError>((tag, m)),
{
    let s = enc_rmsg(tag, m);
    let code = spec_msg_type_code(spec_rmsg_type(m));
    assert(s[0] == code_byte(code));
    lemma_byte_code_of_code_byte(code);
    lemma_msg_type_code_bijective();
    assert(s.skip(1) =~= enc_tag(tag) + enc_rmsg_body(m));
    lemma_tag_round_trip(tag, enc_rmsg_body(m));
    assert(s.skip(1).skip(3) =~= s.skip(4));
    assert(s.skip(4) =~= enc_rmsg_body(m));
    lemma_rmsg_body_round_trip(m);
}

/// Envelope uniformity: every message kind puts the correlation tag at the
/// same place, the three bytes after the type code, so a dispatcher can find
/// it without knowing the kind first.
pub proof fn lemma_tag_at_fixed_offset(tag: Tag, tm: TmsgV, rm: RmsgV)
    ensures
        enc_tmsg(tag, tm).subrange(1, 4) == enc_tag(tag),
        enc_rmsg(tag, rm).subrange(1, 4) == enc_tag(tag),
{
    assert(enc_tmsg(tag, tm).subrange(1, 4) =~= enc_tag(tag));
    assert(enc_rmsg(tag, rm).subrange(1, 4) =~= enc_tag(tag));
}

/// Frame integrity: reading a frame back from writing one returns exactly
/// the framed bytes, for any bytes including the empty slice, and consumes
/// exactly the prefix and the bytes; what follows (the next frame of the
/// stream) is untouched.
pub proof fn lemma_frame_round_trip(body: Seq<u8>, rest: Seq<u8>)
    requires
        frame_ok(body),
    ensures
        enc_frame(body).len() == 4 + body.len(),
        dec_frame(enc_frame(body) + rest) == Ok::<_, MuxError>((
            body,
            4 + body.len() as int,
        )),
        (enc_frame(body) + rest).skip(4 + body.len() as int) == rest,
{
    let s = enc_frame(body) + rest;
    lemma_pow256_small();
    lemma_be_prefix(body.len(), 4, body + rest);
    assert(s =~= be_bytes(body.len(), 4) + (body + rest));
    lemma_be_bytes_len(body.len(), 4);
    assert(s.take(4) =~= be_bytes(body.len(), 4));
    assert(s.subrange(4, 4 + body.len() as int) =~= body);
    assert(s.skip(4 + body.len() as int) =~= rest);
}

/// Round-trip for framed request-direction messages, with anything (such as
/// the stream's next frame) after the frame.
pub proof fn lemma_framed_tmsg_round_trip(tag: Tag, m: TmsgV, rest: Seq<u8>)
    requires
        framed_tmsg_ok(tag, m),
        m matches TmsgV::Req(trace, _) ==> trace is None,
    ensures
        dec_framed_tmsg(enc_framed_tmsg(tag, m) + rest) == Ok::<_, MuxError>((
            (tag, m),
            4 + enc_tmsg(tag, m).len() as int,
        )),
{
    lemma_frame_round_trip(enc_tmsg(tag, m), rest);
    lemma_tmsg_round_trip(tag, m);
}

/// Round-trip for framed response-direction messages.
pub proof fn lemma_framed_rmsg_round_trip(tag: Tag, m: RmsgV, rest: Seq<u8>)
    requires
        framed_rmsg_ok(tag, m),
    ensures
        dec_framed_rmsg(enc_framed_rmsg(tag, m) + rest) == Ok::<_, MuxError>((
            (tag, m),
            4 + enc_rmsg(tag, m).len() as int,
        )),
{
    lemma_frame_round_trip(enc_rmsg(tag, m), rest);
    lemma_rmsg_round_trip(tag, m);
}

} // verus!
