//! Executable encoders, proved to append to a byte buffer exactly the bytes
//! the specification functions in [`crate::wire`] describe.
//!
//! Every encoder appends to the end of an output buffer.  A value whose
//! length does not fit its length prefix is rejected with
//! [`MuxError::EncodingOverflow`] rather than silently truncated; an encoder
//! that fails may have appended a prefix of its output, which the caller
//! discards.

use vstd::prelude::*;
use vstd::slice::slice_index_get;

use crate::misc::{Context, Dentry, Dtab, MuxError, Trace};
use crate::proto::{Rmsg, Tag, Tmsg};
use crate::wire::{be_bytes, buf_ok, code_byte, ctx_ok, ctxs_ok, dentry_ok, dtab_ok, enc_context,
    enc_contexts, enc_contexts_items, enc_dentry, enc_dtab, enc_dtab_items, enc_frame,
    enc_framed_rmsg, enc_framed_tmsg, enc_len_buf, enc_len_str, enc_rmsg, enc_rmsg_body,
    enc_tag, enc_tmsg, enc_tmsg_body, enc_trace, frame_ok, framed_rmsg_ok, framed_tmsg_ok,
    lemma_enc_contexts_items_push, lemma_enc_dtab_items_push, rmsg_ok, str_ok, tmsg_ok};

verus! {

broadcast use vstd::seq::group_seq_axioms;

/// Appends every byte of a slice.
fn write_bytes(out: &mut Vec<u8>, b: &[u8])
    ensures
        final(out)@ == old(out)@ + b@,
{
    let mut i: usize = 0;
    while i < b.len()
        invariant
            i <= b@.len(),
            out@ == old(out)@ + b@.take(i as int),
        decreases b@.len() - i,
    {
        out.push(*slice_index_get(b, i));
        proof {
            assert(b@.take(i + 1) =~= b@.take(i as int).push(b@[i as int]));
            assert(out@ =~= old(out)@ + b@.take(i + 1));
        }
        i = i + 1;
    }
    assert(b@.take(b@.len() as int) =~= b@);
}

/// Appends the big-endian `n`-byte encoding of `v` (its low `8 n` bits).
fn write_be_uint(out: &mut Vec<u8>, v: u64, n: usize)
    requires
        n <= 8,
    ensures
        final(out)@ == old(out)@ + be_bytes(v as nat, n as nat),
    decreases n,
{
    if n == 0 {
        assert(old(out)@ + be_bytes(v as nat, 0) =~= old(out)@);
    } else {
        write_be_uint(out, v / 256, n - 1);
        out.push((v % 256) as u8);
        assert(out@ =~= old(out)@ + be_bytes(v as nat, n as nat));
    }
}

/// Appends a 2-byte big-endian unsigned integer.
pub fn write_be_u16(out: &mut Vec<u8>, v: u16)
    ensures
        final(out)@ == old(out)@ + be_bytes(v as nat, 2),
{
    write_be_uint(out, v as u64, 2);
}

/// Appends a 4-byte big-endian unsigned integer.
pub fn write_be_u32(out: &mut Vec<u8>, v: u32)
    ensures
        final(out)@ == old(out)@ + be_bytes(v as nat, 4),
{
    write_be_uint(out, v as u64, 4);
}

/// Appends an 8-byte big-endian unsigned integer.
pub fn write_be_u64(out: &mut Vec<u8>, v: u64)
    ensures
        final(out)@ == old(out)@ + be_bytes(v as nat, 8),
{
    write_be_uint(out, v, 8);
}

/// Appends a length-prefixed buffer; a buffer longer than the 16-bit length
/// prefix can carry is rejected, not truncated.
pub fn write_len_buf(out: &mut Vec<u8>, buf: &[u8]) -> (r: Result<(), MuxError>)
    ensures
        (match r {
            Ok(()) => buf_ok(buf@) && final(out)@ == old(out)@ + enc_len_buf(buf@),
            Err(e) => e == MuxError::EncodingOverflow && !buf_ok(buf@) && final(out)@ == old(out)@,
        }),
{
    if buf.len() > 0xFFFF {
        Err(MuxError::EncodingOverflow)
    } else {
        write_be_u16(out, buf.len() as u16);
        write_bytes(out, buf);
        assert(out@ =~= old(out)@ + enc_len_buf(buf@));
        Ok(())
    }
}

/// Appends a length-prefixed string: its UTF-8 bytes behind a 16-bit length.
pub fn write_len_str(out: &mut Vec<u8>, s: &str) -> (r: Result<(), MuxError>)
    ensures
        (match r {
            Ok(()) => str_ok(s@) && final(out)@ == old(out)@ + enc_len_str(s@),
            Err(e) => e == MuxError::EncodingOverflow && !str_ok(s@) && final(out)@ == old(out)@,
        }),
{
    let bytes = s.as_bytes();
    write_len_buf(out, bytes)
}

/// Appends the three bytes of a correlation tag, in order.
pub fn write_mux_tag(out: &mut Vec<u8>, tag: &Tag)
    ensures
        final(out)@ == old(out)@ + enc_tag(*tag),
{
    out.push(tag.0);
    out.push(tag.1);
    out.push(tag.2);
    assert(out@ =~= old(out)@ + enc_tag(*tag));
}

/// Appends a context: length-prefixed key, then length-prefixed value.
pub fn write_mux_context(out: &mut Vec<u8>, context: &Context) -> (r: Result<(), MuxError>)
    ensures
        (match r {
            Ok(()) => ctx_ok(context@) && final(out)@ == old(out)@ + enc_context(context@),
            Err(e) => e == MuxError::EncodingOverflow && !ctx_ok(context@) && old(out)@.is_prefix_of(final(out)@),
        }),
{
    match write_len_buf(out, context.key.as_slice()) {
        Err(e) => {
            assert(out@.take(old(out)@.len() as int) =~= old(out)@);
            Err(e)
        },
        Ok(()) => match write_len_buf(out, context.val.as_slice()) {
            Err(e) => {
                assert(out@.take(old(out)@.len() as int) =~= old(out)@);
                Err(e)
            },
            Ok(()) => {
                assert(out@ =~= old(out)@ + enc_context(context@));
                Ok(())
            },
        },
    }
}

/// Appends a context list: 2-byte big-endian count, then each context in
/// order; an oversized count or context is rejected.
pub fn write_mux_contexts(out: &mut Vec<u8>, contexts: &[Context]) -> (r: Result<(), MuxError>)
    ensures
        (match r {
            Ok(()) => ctxs_ok(contexts.deep_view()) && final(out)@ == old(out)@ + enc_contexts(
                contexts.deep_view(),
            ),
            Err(e) => e == MuxError::EncodingOverflow && !ctxs_ok(contexts.deep_view()) && old(out)@.is_prefix_of(final(out)@),
        }),
{
    let ghost csv = contexts.deep_view();
    if contexts.len() > 0xFFFF {
        assert(out@.take(old(out)@.len() as int) =~= old(out)@);
        return Err(MuxError::EncodingOverflow);
    }
    write_be_u16(out, contexts.len() as u16);
    let ghost start = out@;
    let mut i: usize = 0;
    while i < contexts.len()
        invariant
            i <= contexts@.len(),
            csv == contexts.deep_view(),
            csv.len() == contexts@.len(),
            start == old(out)@ + be_bytes(csv.len(), 2),
            out@ == start + enc_contexts_items(csv.take(i as int)),
            forall|j: int| 0 <= j < i ==> ctx_ok(#[trigger] csv[j]),
        decreases contexts@.len() - i,
    {
        let ghost pre = out@;
        match write_mux_context(out, slice_index_get(contexts, i)) {
            Err(e) => {
                proof {
                    assert(csv[i as int] == contexts@[i as int]@);
                    assert(!ctxs_ok(csv));
                    assert(start.take(old(out)@.len() as int) =~= old(out)@);
                    assert(pre.take(old(out)@.len() as int) =~= old(out)@);
                    assert(old(out)@.is_prefix_of(pre));
                    assert(old(out)@.is_prefix_of(out@));
                }
                return Err(e);
            },
            Ok(()) => {
                proof {
                    assert(csv[i as int] == contexts@[i as int]@);
                    lemma_enc_contexts_items_push(csv.take(i as int), csv[i as int]);
                    assert(csv.take(i + 1) =~= csv.take(i as int).push(csv[i as int]));
                    assert(out@ =~= start + enc_contexts_items(csv.take(i + 1)));
                }
                i = i + 1;
            },
        }
    }
    proof {
        assert(csv.take(csv.len() as int) =~= csv);
        assert(out@ =~= old(out)@ + enc_contexts(csv));
    }
    Ok(())
}

/// Appends a delegation entry: length-prefixed source, then target.
pub fn write_mux_dentry(out: &mut Vec<u8>, dentry: &Dentry) -> (r: Result<(), MuxError>)
    ensures
        (match r {
            Ok(()) => dentry_ok(dentry@) && final(out)@ == old(out)@ + enc_dentry(dentry@),
            Err(e) => e == MuxError::EncodingOverflow && !dentry_ok(dentry@) && old(out)@.is_prefix_of(final(out)@),
        }),
{
    match write_len_str(out, dentry.src.as_str()) {
        Err(e) => {
            assert(out@.take(old(out)@.len() as int) =~= old(out)@);
            Err(e)
        },
        Ok(()) => match write_len_str(out, dentry.tree.as_str()) {
            Err(e) => {
                assert(out@.take(old(out)@.len() as int) =~= old(out)@);
                Err(e)
            },
            Ok(()) => {
                assert(out@ =~= old(out)@ + enc_dentry(dentry@));
                Ok(())
            },
        },
    }
}

/// Appends a delegation table: 2-byte big-endian count, then each entry in
/// order; an oversized count or entry is rejected.
pub fn write_mux_dtab(out: &mut Vec<u8>, dtab: &Dtab) -> (r: Result<(), MuxError>)
    ensures
        (match r {
            Ok(()) => dtab_ok(dtab@) && final(out)@ == old(out)@ + enc_dtab(dtab@),
            Err(e) => e == MuxError::EncodingOverflow && !dtab_ok(dtab@) && old(out)@.is_prefix_of(final(out)@),
        }),
{
    let ghost dsv = dtab@;
    let dentries = dtab.0.as_slice();
    proof {
        assert(dentries.deep_view() =~= dsv);
    }
    if dentries.len() > 0xFFFF {
        assert(out@.take(old(out)@.len() as int) =~= old(out)@);
        return Err(MuxError::EncodingOverflow);
    }
    write_be_u16(out, dentries.len() as u16);
    let ghost start = out@;
    let mut i: usize = 0;
    while i < dentries.len()
        invariant
            i <= dentries@.len(),
            dsv == dentries.deep_view(),
            dsv == dtab@,
            dsv.len() == dentries@.len(),
            start == old(out)@ + be_bytes(dsv.len(), 2),
            out@ == start + enc_dtab_items(dsv.take(i as int)),
            forall|j: int| 0 <= j < i ==> dentry_ok(#[trigger] dsv[j]),
        decreases dentries@.len() - i,
    {
        let ghost pre = out@;
        match write_mux_dentry(out, slice_index_get(dentries, i)) {
            Err(e) => {
                proof {
                    assert(dsv[i as int] == dentries@[i as int]@);
                    assert(!dtab_ok(dsv));
                    assert(start.take(old(out)@.len() as int) =~= old(out)@);
                    assert(pre.take(old(out)@.len() as int) =~= old(out)@);
                    assert(old(out)@.is_prefix_of(pre));
                    assert(old(out)@.is_prefix_of(out@));
                }
                return Err(e);
            },
            Ok(()) => {
                proof {
                    assert(dsv[i as int] == dentries@[i as int]@);
                    lemma_enc_dtab_items_push(dsv.take(i as int), dsv[i as int]);
                    assert(dsv.take(i + 1) =~= dsv.take(i as int).push(dsv[i as int]));
                    assert(out@ =~= start + enc_dtab_items(dsv.take(i + 1)));
                }
                i = i + 1;
            },
        }
    }
    proof {
        assert(dsv.take(dsv.len() as int) =~= dsv);
        assert(out@ =~= old(out)@ + enc_dtab(dsv));
    }
    Ok(())
}

/// Appends trace metadata.  Absence is a zero key count; presence is the two
/// fixed keys the wire contract prescribes: key `0` of size 24 with the
/// three identifiers, then key `1` of size 1 with the flags byte.
pub fn write_mux_trace(out: &mut Vec<u8>, trace: &Option<Trace>)
    ensures
        final(out)@ == old(out)@ + enc_trace(*trace),
{
    match trace {
        None => {
            out.push(0);
            assert(out@ =~= old(out)@ + enc_trace(None));
        },
        Some(tr) => {
            out.push(2);
            out.push(0);
            out.push(24);
            write_be_u64(out, tr.span_id);
            write_be_u64(out, tr.parent_id);
            write_be_u64(out, tr.trace_id);
            out.push(1);
            out.push(1);
            out.push(tr.flags);
            assert(out@ =~= old(out)@ + enc_trace(Some(*tr)));
        },
    }
}

/// The unsigned byte a signed type code occupies on the wire.
fn code_to_byte(c: i8) -> (r: u8)
    ensures
        r == code_byte(c),
{
    if c >= 0 {
        c as u8
    } else {
        ((c as i16) + 256) as u8
    }
}

/// Appends the type-specific body of a request-direction message.
pub fn write_mux_tmsg_msg(out: &mut Vec<u8>, m: &Tmsg) -> (r: Result<(), MuxError>)
    ensures
        (match r {
            Ok(()) => tmsg_ok(m@) && final(out)@ == old(out)@ + enc_tmsg_body(m@),
            Err(e) => e == MuxError::EncodingOverflow && !tmsg_ok(m@) && old(out)@.is_prefix_of(final(out)@),
        }),
{
    match m {
        Tmsg::Req(trace, body) => {
            write_mux_trace(out, trace);
            write_bytes(out, body.as_slice());
            assert(out@ =~= old(out)@ + enc_tmsg_body(m@));
            Ok(())
        },
        Tmsg::Dispatch(contexts, dst, dtab, body) => {
            match write_mux_contexts(out, contexts.as_slice()) {
                Err(e) => {
                    assert(!tmsg_ok(m@));
                    return Err(e);
                },
                Ok(()) => {},
            }
            let ghost after_contexts = out@;
            match write_len_str(out, dst.as_str()) {
                Err(e) => {
                    assert(!tmsg_ok(m@));
                    assert(old(out)@.is_prefix_of(out@));
                    return Err(e);
                },
                Ok(()) => {},
            }
            match write_mux_dtab(out, dtab) {
                Err(e) => {
                    assert(!tmsg_ok(m@));
                    assert(old(out)@.is_prefix_of(out@)) by {
                        assert(after_contexts.is_prefix_of(out@));
                    }
                    return Err(e);
                },
                Ok(()) => {},
            }
            write_bytes(out, body.as_slice());
            assert(out@ =~= old(out)@ + enc_tmsg_body(m@));
            Ok(())
        },
        Tmsg::Drain => {
            assert(out@ =~= old(out)@ + enc_tmsg_body(m@));
            Ok(())
        },
        Tmsg::Ping => {
            assert(out@ =~= old(out)@ + enc_tmsg_body(m@));
            Ok(())
        },
        Tmsg::Discarded(which, msg) => {
            write_mux_tag(out, which);
            write_bytes(out, msg.as_str().as_bytes());
            assert(out@ =~= old(out)@ + enc_tmsg_body(m@));
            Ok(())
        },
        Tmsg::Lease(unit, amount) => {
            out.push(*unit);
            write_be_u64(out, *amount);
            assert(out@ =~= old(out)@ + enc_tmsg_body(m@));
            Ok(())
        },
    }
}

/// Appends the type-specific body of a response-direction message; the
/// `Rreq` and `Rdispatch` shapes open with their status byte.
pub fn write_mux_rmsg_msg(out: &mut Vec<u8>, m: &Rmsg) -> (r: Result<(), MuxError>)
    ensures
        (match r {
            Ok(()) => rmsg_ok(m@) && final(out)@ == old(out)@ + enc_rmsg_body(m@),
            Err(e) => e == MuxError::EncodingOverflow && !rmsg_ok(m@) && old(out)@.is_prefix_of(final(out)@),
        }),
{
    match m {
        Rmsg::ReqOk(body) => {
            out.push(0);
            write_bytes(out, body.as_slice());
            assert(out@ =~= old(out)@ + enc_rmsg_body(m@));
            Ok(())
        },
        Rmsg::ReqError(msg) => {
            out.push(1);
            write_bytes(out, msg.as_str().as_bytes());
            assert(out@ =~= old(out)@ + enc_rmsg_body(m@));
            Ok(())
        },
        Rmsg::ReqNack => {
            out.push(2);
            assert(out@ =~= old(out)@ + enc_rmsg_body(m@));
            Ok(())
        },
        Rmsg::DispatchOk(contexts, body) => {
            out.push(0);
            let ghost after_status = out@;
            match write_mux_contexts(out, contexts.as_slice()) {
                Err(e) => {
                    assert(old(out)@.is_prefix_of(out@)) by {
                        assert(after_status.is_prefix_of(out@));
                    }
                    return Err(e);
                },
                Ok(()) => {},
            }
            write_bytes(out, body.as_slice());
            assert(out@ =~= old(out)@ + enc_rmsg_body(m@));
            Ok(())
        },
        Rmsg::DispatchError(contexts, msg) => {
            out.push(1);
            let ghost after_status = out@;
            match write_mux_contexts(out, contexts.as_slice()) {
                Err(e) => {
                    assert(old(out)@.is_prefix_of(out@)) by {
                        assert(after_status.is_prefix_of(out@));
                    }
                    return Err(e);
                },
                Ok(()) => {},
            }
            write_bytes(out, msg.as_str().as_bytes());
            assert(out@ =~= old(out)@ + enc_rmsg_body(m@));
            Ok(())
        },
        Rmsg::DispatchNack(contexts) => {
            out.push(2);
            let ghost after_status = out@;
            match write_mux_contexts(out, contexts.as_slice()) {
                Err(e) => {
                    assert(old(out)@.is_prefix_of(out@)) by {
                        assert(after_status.is_prefix_of(out@));
                    }
                    return Err(e);
                },
                Ok(()) => {},
            }
            assert(out@ =~= old(out)@ + enc_rmsg_body(m@));
            Ok(())
        },
        Rmsg::Drain => {
            assert(out@ =~= old(out)@ + enc_rmsg_body(m@));
            Ok(())
        },
        Rmsg::Ping => {
            assert(out@ =~= old(out)@ + enc_rmsg_body(m@));
            Ok(())
        },
        Rmsg::Error(msg) => {
            write_bytes(out, msg.as_str().as_bytes());
            assert(out@ =~= old(out)@ + enc_rmsg_body(m@));
            Ok(())
        },
    }
}

/// Appends a whole request-direction message: type code byte, tag, body.
pub fn write_mux_tmsg(out: &mut Vec<u8>, tag: &Tag, msg: &Tmsg) -> (r: Result<(), MuxError>)
    ensures
        (match r {
            Ok(()) => tmsg_ok(msg@) && final(out)@ == old(out)@ + enc_tmsg(*tag, msg@),
            Err(e) => e == MuxError::EncodingOverflow && !tmsg_ok(msg@) && old(out)@.is_prefix_of(final(out)@),
        }),
{
    let code = code_to_byte(msg.get_type().to_i8());
    out.push(code);
    write_mux_tag(out, tag);
    let ghost after_envelope = out@;
    match write_mux_tmsg_msg(out, msg) {
        Err(e) => {
            assert(old(out)@.is_prefix_of(out@)) by {
                assert(after_envelope.is_prefix_of(out@));
            }
            Err(e)
        },
        Ok(()) => {
            assert(out@ =~= old(out)@ + enc_tmsg(*tag, msg@));
            Ok(())
        },
    }
}

/// Appends a whole response-direction message: type code byte, tag, body.
pub fn write_mux_rmsg(out: &mut Vec<u8>, tag: &Tag, msg: &Rmsg) -> (r: Result<(), MuxError>)
    ensures
        (match r {
            Ok(()) => rmsg_ok(msg@) && final(out)@ == old(out)@ + enc_rmsg(*tag, msg@),
            Err(e) => e == MuxError::EncodingOverflow && !rmsg_ok(msg@) && old(out)@.is_prefix_of(final(out)@),
        }),
{
    let code = code_to_byte(msg.get_type().to_i8());
    out.push(code);
    write_mux_tag(out, tag);
    let ghost after_envelope = out@;
    match write_mux_rmsg_msg(out, msg) {
        Err(e) => {
            assert(old(out)@.is_prefix_of(out@)) by {
                assert(after_envelope.is_prefix_of(out@));
            }
            Err(e)
        },
        Ok(()) => {
            assert(out@ =~= old(out)@ + enc_rmsg(*tag, msg@));
            Ok(())
        },
    }
}

/// Appends one frame: a 4-byte big-endian length equal to `frame.len()`,
/// then the frame bytes; the length prefix never counts itself.
pub fn write_be_u32_frame(out: &mut Vec<u8>, frame: &[u8]) -> (r: Result<(), MuxError>)
    ensures
        (match r {
            Ok(()) => frame_ok(frame@) && final(out)@ == old(out)@ + enc_frame(frame@),
            Err(e) => e == MuxError::EncodingOverflow && !frame_ok(frame@) && final(out)@ == old(out)@,
        }),
{
    if frame.len() > 0xFFFF_FFFF {
        Err(MuxError::EncodingOverflow)
    } else {
        write_be_uint(out, frame.len() as u64, 4);
        write_bytes(out, frame);
        assert(out@ =~= old(out)@ + enc_frame(frame@));
        Ok(())
    }
}

/// Appends a whole request-direction message inside its frame.
pub fn write_mux_framed_tmsg(out: &mut Vec<u8>, tag: &Tag, msg: &Tmsg) -> (r: Result<
    (),
    MuxError,
>)
    ensures
        (match r {
            Ok(()) => framed_tmsg_ok(*tag, msg@) && final(out)@ == old(out)@ + enc_framed_tmsg(
                *tag,
                msg@,
            ),
            Err(e) => e == MuxError::EncodingOverflow && !framed_tmsg_ok(*tag, msg@) && final(out)@ == old(out)@,
        }),
{
    let mut buf: Vec<u8> = Vec::new();
    match write_mux_tmsg(&mut buf, tag, msg) {
        Err(e) => Err(e),
        Ok(()) => {
            assert(buf@ =~= enc_tmsg(*tag, msg@));
            write_be_u32_frame(out, buf.as_slice())
        },
    }
}

/// Appends a whole response-direction message inside its frame.
pub fn write_mux_framed_rmsg(out: &mut Vec<u8>, tag: &Tag, msg: &Rmsg) -> (r: Result<
    (),
    MuxError,
>)
    ensures
        (match r {
            Ok(()) => framed_rmsg_ok(*tag, msg@) && final(out)@ == old(out)@ + enc_framed_rmsg(
                *tag,
                msg@,
            ),
            Err(e) => e == MuxError::EncodingOverflow && !framed_rmsg_ok(*tag, msg@) && final(out)@ == old(out)@,
        }),
{
    let mut buf: Vec<u8> = Vec::new();
    match write_mux_rmsg(&mut buf, tag, msg) {
        Err(e) => Err(e),
        Ok(()) => {
            assert(buf@ =~= enc_rmsg(*tag, msg@));
            write_be_u32_frame(out, buf.as_slice())
        },
    }
}

/// Writes a 2-byte big-endian element count, then the encodings of elements
/// `0 .. n` in order, each produced by the supplied element encoder; the
/// first element failure ends the write with its error, and a count too
/// large for its prefix is rejected.
pub fn write_len_vec<F: Fn(usize) -> Result<Vec<u8>, MuxError>>(
    out: &mut Vec<u8>,
    n: usize,
    f: F,
) -> (r: Result<(), MuxError>)
    requires
        forall|i: usize| i < n ==> call_requires(f, (i,)),
    ensures
        (match r {
            Ok(()) => n <= 0xFFFF && exists|chunks: Seq<Vec<u8>>|
                #![auto]
                {
                    &&& chunks.len() == n
                    &&& forall|j: int|
                        0 <= j < n ==> call_ensures(f, (j as usize,), Ok::<Vec<u8>, MuxError>(
                            #[trigger] chunks[j],
                        ))
                    &&& final(out)@ == old(out)@ + be_bytes(n as nat, 2) + chunks.map_values(
                        |v: Vec<u8>| v@,
                    ).flatten()
                },
            Err(e) => (n > 0xFFFF && e == MuxError::EncodingOverflow) || exists|i: usize|
                i < n && call_ensures(f, (i,), Err::<Vec<u8>, MuxError>(e)),
        }),
{
    if n > 0xFFFF {
        return Err(MuxError::EncodingOverflow);
    }
    write_be_u16(out, n as u16);
    let ghost start = out@;
    let ghost mut chunks: Seq<Vec<u8>> = Seq::empty();
    let ghost views = |v: Vec<u8>| v@;
    let mut i: usize = 0;
    proof {
        assert(chunks.map_values(views).flatten() =~= Seq::<u8>::empty());
        assert(out@ =~= start + chunks.map_values(views).flatten());
    }
    while i < n
        invariant
            i <= n,
            chunks.len() == i,
            views == (|v: Vec<u8>| v@),
            start == old(out)@ + be_bytes(n as nat, 2),
            out@ == start + chunks.map_values(views).flatten(),
            forall|j: int|
                0 <= j < i ==> call_ensures(f, (j as usize,), Ok::<Vec<u8>, MuxError>(
                    #[trigger] chunks[j],
                )),
            forall|k: usize| k < n ==> call_requires(f, (k,)),
        decreases n - i,
    {
        match f(i) {
            Err(e) => {
                return Err(e);
            },
            Ok(chunk) => {
                write_bytes(out, chunk.as_slice());
                proof {
                    let prev = chunks;
                    chunks = chunks.push(chunk);
                    assert(chunks.map_values(views) =~= prev.map_values(views).push(chunk@));
                    prev.map_values(views).lemma_flatten_push(chunk@);
                    assert(out@ =~= start + chunks.map_values(views).flatten());
                    assert(chunks[i as int] == chunk);
                    assert(forall|j: int| 0 <= j < i ==> chunks[j] == prev[j]);
                }
                i = i + 1;
            },
        }
    }
    proof {
        assert(chunks.map_values(|v: Vec<u8>| v@) =~= chunks.map_values(views));
    }
    Ok(())
}

} // verus!
