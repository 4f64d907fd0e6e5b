//! The byte-exact wire contract, as specification functions.
//!
//! Everything on the wire is big-endian.  `enc_*` functions give the exact
//! byte sequence a value occupies; `spec_dec_*` functions give the result of
//! reading a value off the front of a byte sequence, together with how many
//! bytes it consumed, or the error the malformed input earns.  The encoders
//! are total; where a length does not fit its prefix the corresponding
//! `*_ok` predicate is false and the executable encoder reports
//! [`MuxError::EncodingOverflow`].

use vstd::arithmetic::div_mod::{
    lemma_div_decreases, lemma_div_is_ordered_by_denominator, lemma_div_pos_is_pos,
    lemma_fundamental_div_mod, lemma_fundamental_div_mod_converse,
};
use vstd::prelude::*;

use crate::misc::{ContextV, DentryV, MuxError, Trace};
use crate::proto::{spec_msg_type_code, spec_msg_type_of_code, spec_rmsg_type, spec_tmsg_type,
    MsgType, RmsgV, Tag, TmsgV};
use vstd::utf8::{decode_utf8, encode_utf8, valid_utf8};

verus! {

broadcast use vstd::seq::group_seq_axioms;

/// 256 to the power `n`: the number of byte strings of length `n`.
pub open spec fn pow256(n: nat) -> int
    decreases n,
{
    if n == 0 {
        1
    } else {
        256 * pow256((n - 1) as nat)
    }
}

/// The big-endian `n`-byte encoding of `v` (the low `8 n` bits of `v`).
pub open spec fn be_bytes(v: nat, n: nat) -> Seq<u8>
    decreases n,
{
    if n == 0 {
        Seq::empty()
    } else {
        be_bytes(v / 256, (n - 1) as nat) + seq![(v % 256) as u8]
    }
}

/// The value of a big-endian byte string.
pub open spec fn be_val(s: Seq<u8>) -> nat
    decreases s.len(),
{
    if s.len() == 0 {
        0
    } else {
        (be_val(s.drop_last()) * 256 + s.last()) as nat
    }
}

pub proof fn lemma_be_bytes_len(v: nat, n: nat)
    ensures
        be_bytes(v, n).len() == n,
    decreases n,
{
    if n > 0 {
        lemma_be_bytes_len(v / 256, (n - 1) as nat);
    }
}

/// Reading back the big-endian encoding of a value below `256^n` yields the
/// value itself.
pub proof fn lemma_be_val_of_be_bytes(v: nat, n: nat)
    requires
        v < pow256(n),
    ensures
        be_val(be_bytes(v, n)) == v,
    decreases n,
{
    if n == 0 {
    } else {
        let hi = be_bytes(v / 256, (n - 1) as nat);
        lemma_be_bytes_len(v / 256, (n - 1) as nat);
        let s = be_bytes(v, n);
        assert(s.drop_last() =~= hi);
        assert(s.last() == (v % 256) as u8);
        assert(v / 256 < pow256((n - 1) as nat)) by {
            lemma_fundamental_div_mod(v as int, 256);
        }
        lemma_be_val_of_be_bytes(v / 256, (n - 1) as nat);
        lemma_fundamental_div_mod(v as int, 256);
    }
}

/// The values of `pow256` at every width the protocol uses.
pub proof fn lemma_pow256_small()
    ensures
        pow256(0) == 1,
        pow256(1) == 0x100,
        pow256(2) == 0x1_0000,
        pow256(3) == 0x100_0000,
        pow256(4) == 0x1_0000_0000,
        pow256(5) == 0x100_0000_0000,
        pow256(6) == 0x1_0000_0000_0000,
        pow256(7) == 0x100_0000_0000_0000,
        pow256(8) == 0x1_0000_0000_0000_0000,
{
    assert(pow256(0) == 1);
    assert(pow256(1) == 0x100);
    assert(pow256(2) == 0x1_0000);
    assert(pow256(3) == 0x100_0000);
    assert(pow256(4) == 0x1_0000_0000);
    assert(pow256(5) == 0x100_0000_0000);
    assert(pow256(6) == 0x1_0000_0000_0000);
    assert(pow256(7) == 0x100_0000_0000_0000);
    assert(pow256(8) == 0x1_0000_0000_0000_0000);
}

/// The value of an `n`-byte string is below `256^n`.
pub proof fn lemma_be_val_bound(s: Seq<u8>)
    ensures
        be_val(s) < pow256(s.len()),
    decreases s.len(),
{
    if s.len() > 0 {
        lemma_be_val_bound(s.drop_last());
    }
}

/// The unsigned byte a signed type code occupies on the wire.
pub open spec fn code_byte(c: i8) -> u8 {
    if c >= 0 {
        c as u8
    } else {
        (c + 256) as u8
    }
}

/// The signed type code held by a wire byte.
pub open spec fn byte_code(b: u8) -> i8 {
    if b < 128 {
        b as i8
    } else {
        (b - 256) as i8
    }
}

/// A wire byte decodes to the code it was encoded from.
pub proof fn lemma_byte_code_of_code_byte(c: i8)
    ensures
        byte_code(code_byte(c)) == c,
{
}

// ---------------------------------------------------------------------------
// Encoding: the exact byte sequence each value occupies on the wire.
// ---------------------------------------------------------------------------

/// A byte buffer fits its 16-bit length prefix.
pub open spec fn buf_ok(b: Seq<u8>) -> bool {
    b.len() <= 0xFFFF
}

/// A length-prefixed buffer: 2-byte big-endian length, then the bytes.
pub open spec fn enc_len_buf(b: Seq<u8>) -> Seq<u8> {
    be_bytes(b.len(), 2) + b
}

/// A string's UTF-8 bytes fit the 16-bit length prefix.
pub open spec fn str_ok(s: Seq<char>) -> bool {
    encode_utf8(s).len() <= 0xFFFF
}

/// A length-prefixed string: its UTF-8 bytes as a length-prefixed buffer.
pub open spec fn enc_len_str(s: Seq<char>) -> Seq<u8> {
    enc_len_buf(encode_utf8(s))
}

pub open spec fn ctx_ok(c: ContextV) -> bool {
    buf_ok(c.key) && buf_ok(c.val)
}

/// A context: length-prefixed key, then length-prefixed value.
pub open spec fn enc_context(c: ContextV) -> Seq<u8> {
    enc_len_buf(c.key) + enc_len_buf(c.val)
}

pub open spec fn enc_contexts_items(cs: Seq<ContextV>) -> Seq<u8>
    decreases cs.len(),
{
    if cs.len() == 0 {
        Seq::empty()
    } else {
        enc_context(cs.first()) + enc_contexts_items(cs.drop_first())
    }
}

pub open spec fn ctxs_ok(cs: Seq<ContextV>) -> bool {
    cs.len() <= 0xFFFF && forall|i: int| 0 <= i < cs.len() ==> ctx_ok(#[trigger] cs[i])
}

/// A context list: 2-byte big-endian count, then the contexts in order.
pub open spec fn enc_contexts(cs: Seq<ContextV>) -> Seq<u8> {
    be_bytes(cs.len(), 2) + enc_contexts_items(cs)
}

pub open spec fn dentry_ok(d: DentryV) -> bool {
    str_ok(d.src) && str_ok(d.tree)
}

/// A delegation entry: length-prefixed source, then length-prefixed target.
pub open spec fn enc_dentry(d: DentryV) -> Seq<u8> {
    enc_len_str(d.src) + enc_len_str(d.tree)
}

pub open spec fn enc_dtab_items(ds: Seq<DentryV>) -> Seq<u8>
    decreases ds.len(),
{
    if ds.len() == 0 {
        Seq::empty()
    } else {
        enc_dentry(ds.first()) + enc_dtab_items(ds.drop_first())
    }
}

pub open spec fn dtab_ok(ds: Seq<DentryV>) -> bool {
    ds.len() <= 0xFFFF && forall|i: int| 0 <= i < ds.len() ==> dentry_ok(#[trigger] ds[i])
}

/// A delegation table: 2-byte big-endian count, then the entries in order.
pub open spec fn enc_dtab(ds: Seq<DentryV>) -> Seq<u8> {
    be_bytes(ds.len(), 2) + enc_dtab_items(ds)
}

/// Trace metadata.  Absence is a zero key count.  Presence is written as two
/// keys in fixed order: key `0` of size 24 holding the three identifiers,
/// then key `1` of size 1 holding the flags byte.  These key constants are a
/// fixed wire contract.
pub open spec fn enc_trace(t: Option<Trace>) -> Seq<u8> {
    match t {
        None => seq![0u8],
        Some(tr) => seq![2u8, 0u8, 24u8] + be_bytes(tr.span_id as nat, 8) + be_bytes(
            tr.parent_id as nat,
            8,
        ) + be_bytes(tr.trace_id as nat, 8) + seq![1u8, 1u8, tr.flags],
    }
}

/// A correlation tag: its three bytes, in order, never sign-extended.
pub open spec fn enc_tag(t: Tag) -> Seq<u8> {
    seq![t.0, t.1, t.2]
}

/// The type-specific body of a request-direction message.
pub open spec fn enc_tmsg_body(m: TmsgV) -> Seq<u8> {
    match m {
        TmsgV::Req(trace, body) => enc_trace(trace) + body,
        TmsgV::Dispatch(cs, dst, dtab, body) => enc_contexts(cs) + enc_len_str(dst) + enc_dtab(
            dtab,
        ) + body,
        TmsgV::Drain => Seq::empty(),
        TmsgV::Ping => Seq::empty(),
        TmsgV::Discarded(which, msg) => enc_tag(which) + encode_utf8(msg),
        TmsgV::Lease(unit, amount) => seq![unit] + be_bytes(amount as nat, 8),
    }
}

/// Every length-prefixed field of the message fits its prefix.
pub open spec fn tmsg_ok(m: TmsgV) -> bool {
    match m {
        TmsgV::Dispatch(cs, dst, dtab, _) => ctxs_ok(cs) && str_ok(dst) && dtab_ok(dtab),
        _ => true,
    }
}

/// The type-specific body of a response-direction message.  The three `Rreq`
/// and the three `Rdispatch` shapes open with their status byte: `0` carries
/// a payload, `1` an error description, `2` nothing further.
pub open spec fn enc_rmsg_body(m: RmsgV) -> Seq<u8> {
    match m {
        RmsgV::ReqOk(body) => seq![0u8] + body,
        RmsgV::ReqError(msg) => seq![1u8] + encode_utf8(msg),
        RmsgV::ReqNack => seq![2u8],
        RmsgV::DispatchOk(cs, body) => seq![0u8] + enc_contexts(cs) + body,
        RmsgV::DispatchError(cs, msg) => seq![1u8] + enc_contexts(cs) + encode_utf8(msg),
        RmsgV::DispatchNack(cs) => seq![2u8] + enc_contexts(cs),
        RmsgV::Drain => Seq::empty(),
        RmsgV::Ping => Seq::empty(),
        RmsgV::Error(msg) => encode_utf8(msg),
    }
}

/// Every length-prefixed field of the message fits its prefix.
pub open spec fn rmsg_ok(m: RmsgV) -> bool {
    match m {
        RmsgV::DispatchOk(cs, _) => ctxs_ok(cs),
        RmsgV::DispatchError(cs, _) => ctxs_ok(cs),
        RmsgV::DispatchNack(cs) => ctxs_ok(cs),
        _ => true,
    }
}

/// A whole request-direction message: type code byte, tag, body.  The
/// envelope is uniform over every kind, so the tag always sits at the same
/// offset.
pub open spec fn enc_tmsg(tag: Tag, m: TmsgV) -> Seq<u8> {
    seq![code_byte(spec_msg_type_code(spec_tmsg_type(m)))] + enc_tag(tag) + enc_tmsg_body(m)
}

/// A whole response-direction message: type code byte, tag, body.
pub open spec fn enc_rmsg(tag: Tag, m: RmsgV) -> Seq<u8> {
    seq![code_byte(spec_msg_type_code(spec_rmsg_type(m)))] + enc_tag(tag) + enc_rmsg_body(m)
}

/// A frame body fits the 32-bit length prefix.
pub open spec fn frame_ok(body: Seq<u8>) -> bool {
    body.len() <= 0xFFFF_FFFF
}

/// A frame: 4-byte big-endian length (excluding itself), then the body.
pub open spec fn enc_frame(body: Seq<u8>) -> Seq<u8> {
    be_bytes(body.len(), 4) + body
}

// ---------------------------------------------------------------------------
// Decoding: the value read off the front of a byte sequence, with the number
// of bytes consumed, or the error the input earns.
// ---------------------------------------------------------------------------

pub open spec fn dec_u8(s: Seq<u8>) -> Result<(u8, int), MuxError> {
    if s.len() < 1 {
        Err(MuxError::Underflow)
    } else {
        Ok((s[0], 1))
    }
}

pub open spec fn dec_be_u16(s: Seq<u8>) -> Result<(u16, int), MuxError> {
    if s.len() < 2 {
        Err(MuxError::Underflow)
    } else {
        Ok(((be_val(s.take(2)) as u16), 2))
    }
}

pub open spec fn dec_be_u32(s: Seq<u8>) -> Result<(u32, int), MuxError> {
    if s.len() < 4 {
        Err(MuxError::Underflow)
    } else {
        Ok(((be_val(s.take(4)) as u32), 4))
    }
}

pub open spec fn dec_be_u64(s: Seq<u8>) -> Result<(u64, int), MuxError> {
    if s.len() < 8 {
        Err(MuxError::Underflow)
    } else {
        Ok(((be_val(s.take(8)) as u64), 8))
    }
}

/// Exactly `n` raw bytes.
pub open spec fn dec_exact(s: Seq<u8>, n: int) -> Result<(Seq<u8>, int), MuxError> {
    if s.len() < n {
        Err(MuxError::Underflow)
    } else {
        Ok((s.take(n), n))
    }
}

/// A length-prefixed buffer: 2-byte big-endian length, then that many bytes.
pub open spec fn dec_len_buf(s: Seq<u8>) -> Result<(Seq<u8>, int), MuxError> {
    match dec_be_u16(s) {
        Ok((len, k)) => match dec_exact(s.skip(k), len as int) {
            Ok((b, k2)) => Ok((b, k + k2)),
            Err(e) => Err(e),
        },
        Err(e) => Err(e),
    }
}

/// A length-prefixed string: a length-prefixed buffer whose bytes must be
/// valid UTF-8.
pub open spec fn dec_len_str(s: Seq<u8>) -> Result<(Seq<char>, int), MuxError> {
    match dec_len_buf(s) {
        Ok((b, k)) => if valid_utf8(b) {
            Ok((decode_utf8(b), k))
        } else {
            Err(MuxError::InvalidUtf8)
        },
        Err(e) => Err(e),
    }
}

/// Every remaining byte, as a UTF-8 string.
pub open spec fn dec_str_to_end(s: Seq<u8>) -> Result<Seq<char>, MuxError> {
    if valid_utf8(s) {
        Ok(decode_utf8(s))
    } else {
        Err(MuxError::InvalidUtf8)
    }
}

pub open spec fn dec_context(s: Seq<u8>) -> Result<(ContextV, int), MuxError> {
    match dec_len_buf(s) {
        Ok((key, k)) => match dec_len_buf(s.skip(k)) {
            Ok((val, k2)) => Ok((ContextV { key, val }, k + k2)),
            Err(e) => Err(e),
        },
        Err(e) => Err(e),
    }
}

/// `n` consecutive contexts; the first malformed one ends the read with its
/// error and no partial result.
pub open spec fn dec_contexts_n(s: Seq<u8>, n: nat) -> Result<(Seq<ContextV>, int), MuxError>
    decreases n,
{
    if n == 0 {
        Ok((Seq::empty(), 0))
    } else {
        match dec_context(s) {
            Ok((c, k)) => match dec_contexts_n(s.skip(k), (n - 1) as nat) {
                Ok((cs, k2)) => Ok((seq![c] + cs, k + k2)),
                Err(e) => Err(e),
            },
            Err(e) => Err(e),
        }
    }
}

/// A context list: 2-byte big-endian count, then that many contexts.
pub open spec fn dec_contexts(s: Seq<u8>) -> Result<(Seq<ContextV>, int), MuxError> {
    match dec_be_u16(s) {
        Ok((n, k)) => match dec_contexts_n(s.skip(k), n as nat) {
            Ok((cs, k2)) => Ok((cs, k + k2)),
            Err(e) => Err(e),
        },
        Err(e) => Err(e),
    }
}

pub open spec fn dec_dentry(s: Seq<u8>) -> Result<(DentryV, int), MuxError> {
    match dec_len_str(s) {
        Ok((src, k)) => match dec_len_str(s.skip(k)) {
            Ok((tree, k2)) => Ok((DentryV { src, tree }, k + k2)),
            Err(e) => Err(e),
        },
        Err(e) => Err(e),
    }
}

pub open spec fn dec_dtab_n(s: Seq<u8>, n: nat) -> Result<(Seq<DentryV>, int), MuxError>
    decreases n,
{
    if n == 0 {
        Ok((Seq::empty(), 0))
    } else {
        match dec_dentry(s) {
            Ok((d, k)) => match dec_dtab_n(s.skip(k), (n - 1) as nat) {
                Ok((ds, k2)) => Ok((seq![d] + ds, k + k2)),
                Err(e) => Err(e),
            },
            Err(e) => Err(e),
        }
    }
}

/// A delegation table: 2-byte big-endian count, then that many entries.
pub open spec fn dec_dtab(s: Seq<u8>) -> Result<(Seq<DentryV>, int), MuxError> {
    match dec_be_u16(s) {
        Ok((n, k)) => match dec_dtab_n(s.skip(k), n as nat) {
            Ok((ds, k2)) => Ok((ds, k + k2)),
            Err(e) => Err(e),
        },
        Err(e) => Err(e),
    }
}

/// A correlation tag: exactly three bytes, never sign-extended.
pub open spec fn dec_tag(s: Seq<u8>) -> Result<(Tag, int), MuxError> {
    if s.len() < 3 {
        Err(MuxError::Underflow)
    } else {
        Ok((Tag(s[0], s[1], s[2]), 3))
    }
}

/// `n` remaining trace keys, folded over the identifiers and flags read so
/// far.  Key `1` must announce 24 bytes and holds the three identifiers; key
/// `2` holds the flags in the last of its announced bytes (earlier bytes are
/// reserved and ignored; with no bytes the flags are unchanged); any other
/// key is an error.  A later occurrence of a key overrides an earlier one.
pub open spec fn dec_trace_keys(
    s: Seq<u8>,
    n: nat,
    ids: Option<(u64, u64, u64)>,
    flags: u8,
) -> Result<((Option<(u64, u64, u64)>, u8), int), MuxError>
    decreases n,
{
    if n == 0 {
        Ok(((ids, flags), 0))
    } else if s.len() < 2 {
        Err(MuxError::Underflow)
    } else {
        let key = s[0];
        let vsize = s[1];
        if key == 1 {
            if vsize != 24 {
                Err(MuxError::InvalidTraceKey)
            } else if s.len() < 26 {
                Err(MuxError::Underflow)
            } else {
                let span = be_val(s.subrange(2, 10)) as u64;
                let parent = be_val(s.subrange(10, 18)) as u64;
                let trace = be_val(s.subrange(18, 26)) as u64;
                match dec_trace_keys(s.skip(26), (n - 1) as nat, Some((span, parent, trace)),
                    flags) {
                    Ok((r, k)) => Ok((r, 26 + k)),
                    Err(e) => Err(e),
                }
            }
        } else if key == 2 {
            if s.len() < 2 + vsize {
                Err(MuxError::Underflow)
            } else {
                let nf = if vsize == 0 {
                    flags
                } else {
                    s[2 + vsize - 1]
                };
                match dec_trace_keys(s.skip(2 + vsize as int), (n - 1) as nat, ids, nf) {
                    Ok((r, k)) => Ok((r, 2 + vsize + k)),
                    Err(e) => Err(e),
                }
            }
        } else {
            Err(MuxError::UnknownTraceKey(key))
        }
    }
}

/// Optional trace metadata: a key count, then that many keys.  The result is
/// present exactly when key `1` was seen; flags come from key `2` and
/// default to zero.
pub open spec fn dec_trace(s: Seq<u8>) -> Result<(Option<Trace>, int), MuxError> {
    match dec_u8(s) {
        Ok((nkeys, k)) => match dec_trace_keys(s.skip(k), nkeys as nat, None, 0) {
            Ok(((ids, flags), k2)) => Ok((
                match ids {
                    Some((span_id, parent_id, trace_id)) => Some(
                        Trace { span_id, parent_id, trace_id, flags },
                    ),
                    None => None,
                },
                k + k2,
            )),
            Err(e) => Err(e),
        },
        Err(e) => Err(e),
    }
}

/// The type-specific body of a request-direction message, read to the end of
/// the frame slice: whatever follows the structured prefix fields is the
/// trailing payload or string.  Leftover bytes after a fixed-size body are
/// not an error; only under-reads are.
pub open spec fn dec_tmsg_body(t: MsgType, s: Seq<u8>) -> Result<TmsgV, MuxError> {
    match t {
        MsgType::Treq => match dec_trace(s) {
            Ok((trace, k)) => Ok(TmsgV::Req(trace, s.skip(k))),
            Err(e) => Err(e),
        },
        MsgType::Tdispatch => match dec_contexts(s) {
            Ok((cs, k1)) => match dec_len_str(s.skip(k1)) {
                Ok((dst, k2)) => match dec_dtab(s.skip(k1 + k2)) {
                    Ok((ds, k3)) => Ok(TmsgV::Dispatch(cs, dst, ds, s.skip(k1 + k2 + k3))),
                    Err(e) => Err(e),
                },
                Err(e) => Err(e),
            },
            Err(e) => Err(e),
        },
        MsgType::Tdrain => Ok(TmsgV::Drain),
        MsgType::Tping => Ok(TmsgV::Ping),
        MsgType::Tdiscarded => match dec_tag(s) {
            Ok((which, k)) => match dec_str_to_end(s.skip(k)) {
                Ok(msg) => Ok(TmsgV::Discarded(which, msg)),
                Err(e) => Err(e),
            },
            Err(e) => Err(e),
        },
        MsgType::Tlease => match dec_u8(s) {
            Ok((unit, k)) => match dec_be_u64(s.skip(k)) {
                Ok((amount, _)) => Ok(TmsgV::Lease(unit, amount)),
                Err(e) => Err(e),
            },
            Err(e) => Err(e),
        },
        _ => Err(MuxError::UnknownMessageType(spec_msg_type_code(t))),
    }
}

/// The type-specific body of a response-direction message.  An out-of-range
/// status byte fails before any further body bytes are touched.
pub open spec fn dec_rmsg_body(t: MsgType, s: Seq<u8>) -> Result<RmsgV, MuxError> {
    match t {
        MsgType::Rreq => match dec_u8(s) {
            Ok((status, k)) => if status == 0 {
                Ok(RmsgV::ReqOk(s.skip(k)))
            } else if status == 1 {
                match dec_str_to_end(s.skip(k)) {
                    Ok(msg) => Ok(RmsgV::ReqError(msg)),
                    Err(e) => Err(e),
                }
            } else if status == 2 {
                Ok(RmsgV::ReqNack)
            } else {
                Err(MuxError::UnknownStatus(status))
            },
            Err(e) => Err(e),
        },
        MsgType::Rdispatch => match dec_u8(s) {
            Ok((status, k)) => if status > 2 {
                Err(MuxError::UnknownStatus(status))
            } else {
                match dec_contexts(s.skip(k)) {
                    Ok((cs, k2)) => if status == 0 {
                        Ok(RmsgV::DispatchOk(cs, s.skip(k + k2)))
                    } else if status == 1 {
                        match dec_str_to_end(s.skip(k + k2)) {
                            Ok(msg) => Ok(RmsgV::DispatchError(cs, msg)),
                            Err(e) => Err(e),
                        }
                    } else {
                        Ok(RmsgV::DispatchNack(cs))
                    },
                    Err(e) => Err(e),
                }
            },
            Err(e) => Err(e),
        },
        MsgType::Rdrain => Ok(RmsgV::Drain),
        MsgType::Rping => Ok(RmsgV::Ping),
        MsgType::Rerr => match dec_str_to_end(s) {
            Ok(msg) => Ok(RmsgV::Error(msg)),
            Err(e) => Err(e),
        },
        _ => Err(MuxError::UnknownMessageType(spec_msg_type_code(t))),
    }
}

/// A whole request-direction message: the envelope's type code byte (which
/// must be in the closed table, checked before anything further is read),
/// the tag, then the body.
pub open spec fn dec_tmsg(s: Seq<u8>) -> Result<(Tag, TmsgV), MuxError> {
    if s.len() < 1 {
        Err(MuxError::Underflow)
    } else {
        let code = byte_code(s[0]);
        match spec_msg_type_of_code(code) {
            None => Err(MuxError::UnknownMessageType(code)),
            Some(t) => match dec_tag(s.skip(1)) {
                Ok((tag, k)) => match dec_tmsg_body(t, s.skip(1 + k)) {
                    Ok(m) => Ok((tag, m)),
                    Err(e) => Err(e),
                },
                Err(e) => Err(e),
            },
        }
    }
}

/// A whole response-direction message.
pub open spec fn dec_rmsg(s: Seq<u8>) -> Result<(Tag, RmsgV), MuxError> {
    if s.len() < 1 {
        Err(MuxError::Underflow)
    } else {
        let code = byte_code(s[0]);
        match spec_msg_type_of_code(code) {
            None => Err(MuxError::UnknownMessageType(code)),
            Some(t) => match dec_tag(s.skip(1)) {
                Ok((tag, k)) => match dec_rmsg_body(t, s.skip(1 + k)) {
                    Ok(m) => Ok((tag, m)),
                    Err(e) => Err(e),
                },
                Err(e) => Err(e),
            },
        }
    }
}

/// One frame off the front of a stream: 4-byte big-endian length, then that
/// many bytes.  A short read is a truncation, distinct from every in-frame
/// decode error.
pub open spec fn dec_frame(s: Seq<u8>) -> Result<(Seq<u8>, int), MuxError> {
    if s.len() < 4 {
        Err(MuxError::Truncated)
    } else {
        let n = be_val(s.take(4)) as int;
        if s.len() < 4 + n {
            Err(MuxError::Truncated)
        } else {
            Ok((s.subrange(4, 4 + n), 4 + n))
        }
    }
}

/// One frame, decoded as a request-direction message against exactly the
/// frame's own slice.
pub open spec fn dec_framed_tmsg(s: Seq<u8>) -> Result<((Tag, TmsgV), int), MuxError> {
    match dec_frame(s) {
        Ok((body, k)) => match dec_tmsg(body) {
            Ok(tm) => Ok((tm, k)),
            Err(e) => Err(e),
        },
        Err(e) => Err(e),
    }
}

/// One frame, decoded as a response-direction message against exactly the
/// frame's own slice.
pub open spec fn dec_framed_rmsg(s: Seq<u8>) -> Result<((Tag, RmsgV), int), MuxError> {
    match dec_frame(s) {
        Ok((body, k)) => match dec_rmsg(body) {
            Ok(tm) => Ok((tm, k)),
            Err(e) => Err(e),
        },
        Err(e) => Err(e),
    }
}

/// A request-direction message both fits its length prefixes and, once
/// enveloped, fits a frame.
pub open spec fn framed_tmsg_ok(tag: Tag, m: TmsgV) -> bool {
    tmsg_ok(m) && frame_ok(enc_tmsg(tag, m))
}

/// A whole request-direction message inside its frame.
pub open spec fn enc_framed_tmsg(tag: Tag, m: TmsgV) -> Seq<u8> {
    enc_frame(enc_tmsg(tag, m))
}

/// A response-direction message both fits its length prefixes and, once
/// enveloped, fits a frame.
pub open spec fn framed_rmsg_ok(tag: Tag, m: RmsgV) -> bool {
    rmsg_ok(m) && frame_ok(enc_rmsg(tag, m))
}

/// A whole response-direction message inside its frame.
pub open spec fn enc_framed_rmsg(tag: Tag, m: RmsgV) -> Seq<u8> {
    enc_frame(enc_rmsg(tag, m))
}

/// Appending a context to a list appends its encoding to the list's.
pub proof fn lemma_enc_contexts_items_push(cs: Seq<ContextV>, c: ContextV)
    ensures
        enc_contexts_items(cs.push(c)) == enc_contexts_items(cs) + enc_context(c),
    decreases cs.len(),
{
    if cs.len() == 0 {
        assert(cs.push(c).drop_first() =~= cs);
        assert(cs.push(c).first() == c);
        assert(enc_contexts_items(cs.push(c)) == enc_context(c) + enc_contexts_items(cs));
        assert(enc_contexts_items(cs) =~= Seq::<u8>::empty());
        assert(enc_contexts_items(cs.push(c)) =~= enc_contexts_items(cs) + enc_context(c));
    } else {
        lemma_enc_contexts_items_push(cs.drop_first(), c);
        assert(cs.push(c).drop_first() =~= cs.drop_first().push(c));
        assert(cs.push(c).first() == cs.first());
        assert(enc_contexts_items(cs.push(c)) == enc_context(cs.first()) + enc_contexts_items(
            cs.drop_first().push(c)));
        assert(enc_contexts_items(cs) == enc_context(cs.first()) + enc_contexts_items(
            cs.drop_first()));
        assert((enc_context(cs.first()) + (enc_contexts_items(cs.drop_first()) + enc_context(c)))
            =~= ((enc_context(cs.first()) + enc_contexts_items(cs.drop_first())) + enc_context(
            c)));
        assert(enc_contexts_items(cs.push(c)) == enc_contexts_items(cs) + enc_context(c));
    }
}

/// Appending an entry to a delegation table appends its encoding to the
/// table's.
pub proof fn lemma_enc_dtab_items_push(ds: Seq<DentryV>, d: DentryV)
    ensures
        enc_dtab_items(ds.push(d)) == enc_dtab_items(ds) + enc_dentry(d),
    decreases ds.len(),
{
    if ds.len() == 0 {
        assert(ds.push(d).drop_first() =~= ds);
        assert(ds.push(d).first() == d);
        assert(enc_dtab_items(ds.push(d)) == enc_dentry(d) + enc_dtab_items(ds));
        assert(enc_dtab_items(ds) =~= Seq::<u8>::empty());
        assert(enc_dtab_items(ds.push(d)) =~= enc_dtab_items(ds) + enc_dentry(d));
    } else {
        lemma_enc_dtab_items_push(ds.drop_first(), d);
        assert(ds.push(d).drop_first() =~= ds.drop_first().push(d));
        assert(ds.push(d).first() == ds.first());
        assert(enc_dtab_items(ds.push(d)) == enc_dentry(ds.first()) + enc_dtab_items(
            ds.drop_first().push(d)));
        assert(enc_dtab_items(ds) == enc_dentry(ds.first()) + enc_dtab_items(ds.drop_first()));
        assert((enc_dentry(ds.first()) + (enc_dtab_items(ds.drop_first()) + enc_dentry(d)))
            =~= ((enc_dentry(ds.first()) + enc_dtab_items(ds.drop_first())) + enc_dentry(d)));
        assert(enc_dtab_items(ds.push(d)) == enc_dtab_items(ds) + enc_dentry(d));
    }
}

} // verus!
