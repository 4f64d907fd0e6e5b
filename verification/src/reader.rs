//! Executable decoders, proved to read values off a byte buffer exactly as
//! the specification functions in [`crate::wire`] describe.
//!
//! Every decoder takes the buffer and a cursor position and returns the
//! value together with the position just past it, or the error the input
//! earns; decoders of open-ended trailing fields consume everything up to
//! the end of the buffer, which stands for the end of the current frame.

use vstd::prelude::*;
use vstd::slice::{slice_index_get, slice_subrange, slice_to_vec};
use vstd::utf8::{decode_utf8, valid_utf8};

use crate::misc::{Context, ContextV, Dentry, DentryV, Dtab, MuxError, Trace};
use crate::proto::{MsgType, Rmsg, RmsgV, Tag, Tmsg, TmsgV};
use crate::wire::{be_val, byte_code, dec_be_u16, dec_be_u32, dec_be_u64, dec_context,
    dec_contexts, dec_contexts_n, dec_dentry, dec_dtab, dec_dtab_n, dec_exact, dec_frame,
    dec_framed_rmsg, dec_framed_tmsg, dec_len_buf, dec_len_str, dec_rmsg, dec_rmsg_body,
    dec_str_to_end, dec_tag, dec_tmsg, dec_tmsg_body, dec_trace, dec_trace_keys, dec_u8,
    lemma_be_val_bound, lemma_pow256_small, pow256};

verus! {

/// One byte.
pub fn read_u8(bytes: &[u8], pos: usize) -> (r: Result<(u8, usize), MuxError>)
    requires
        pos <= bytes@.len(),
    ensures
        (match r {
            Ok((v, end)) => pos < end <= bytes@.len() && dec_u8(bytes@.skip(pos as int))
                == Ok::<_, MuxError>((v, end - pos)),
            Err(e) => dec_u8(bytes@.skip(pos as int)) == Err::<(u8, int), MuxError>(e),
        }),
{
    if pos < bytes.len() {
        let b = *slice_index_get(bytes, pos);
        assert(bytes@.skip(pos as int)[0] == bytes@[pos as int]);
        Ok((b, pos + 1))
    } else {
        assert(bytes@.skip(pos as int).len() == 0);
        Err(MuxError::Underflow)
    }
}

/// An unsigned big-endian integer of `n <= 8` bytes.
fn read_be_uint(bytes: &[u8], pos: usize, n: usize) -> (r: Result<(u64, usize), MuxError>)
    requires
        pos <= bytes@.len(),
        1 <= n <= 8,
    ensures
        (match r {
            Ok((v, end)) => {
                &&& end == pos + n
                &&& end <= bytes@.len()
                &&& v == be_val(bytes@.skip(pos as int).take(n as int))
            },
            Err(e) => e == MuxError::Underflow && bytes@.len() - pos < n,
        }),
{
    if bytes.len() - pos < n {
        return Err(MuxError::Underflow);
    }
    let ghost s = bytes@.skip(pos as int);
    let mut v: u64 = 0;
    let mut i: usize = 0;
    proof {
        lemma_pow256_small();
        assert(s.take(0) =~= Seq::<u8>::empty());
    }
    while i < n
        invariant
            i <= n <= 8,
            pos + n <= usize::MAX,
            pos + n <= bytes@.len(),
            s == bytes@.skip(pos as int),
            v == be_val(s.take(i as int)),
            v < pow256(i as nat),
            pow256(7) == 0x100_0000_0000_0000,
            forall|j: nat| j < 8 ==> 256 * #[trigger] pow256(j) == pow256((j + 1) as nat),
        decreases n - i,
    {
        let b = *slice_index_get(bytes, pos + i);
        proof {
            let t = s.take(i + 1);
            assert(t.drop_last() =~= s.take(i as int));
            assert(t.last() == bytes@[pos + i]);
            assert(pow256(i as nat) <= pow256(7)) by {
                lemma_pow256_small();
            }
        }
        v = v * 256 + (b as u64);
        i = i + 1;
    }
    assert(s.take(n as int) == s.take(i as int));
    Ok((v, pos + n))
}

/// A 2-byte big-endian unsigned integer.
pub fn read_be_u16(bytes: &[u8], pos: usize) -> (r: Result<(u16, usize), MuxError>)
    requires
        pos <= bytes@.len(),
    ensures
        (match r {
            Ok((v, end)) => pos < end <= bytes@.len() && dec_be_u16(bytes@.skip(pos as int))
                == Ok::<_, MuxError>((v, end - pos)),
            Err(e) => dec_be_u16(bytes@.skip(pos as int)) == Err::<(u16, int), MuxError>(e),
        }),
{
    match read_be_uint(bytes, pos, 2) {
        Ok((v, end)) => {
            proof {
                lemma_be_val_bound(bytes@.skip(pos as int).take(2));
                lemma_pow256_small();
            }
            Ok((v as u16, end))
        },
        Err(e) => Err(e),
    }
}

/// A 4-byte big-endian unsigned integer.
pub fn read_be_u32(bytes: &[u8], pos: usize) -> (r: Result<(u32, usize), MuxError>)
    requires
        pos <= bytes@.len(),
    ensures
        (match r {
            Ok((v, end)) => pos < end <= bytes@.len() && dec_be_u32(bytes@.skip(pos as int))
                == Ok::<_, MuxError>((v, end - pos)),
            Err(e) => dec_be_u32(bytes@.skip(pos as int)) == Err::<(u32, int), MuxError>(e),
        }),
{
    match read_be_uint(bytes, pos, 4) {
        Ok((v, end)) => {
            proof {
                lemma_be_val_bound(bytes@.skip(pos as int).take(4));
                lemma_pow256_small();
            }
            Ok((v as u32, end))
        },
        Err(e) => Err(e),
    }
}

/// An 8-byte big-endian unsigned integer.
pub fn read_be_u64(bytes: &[u8], pos: usize) -> (r: Result<(u64, usize), MuxError>)
    requires
        pos <= bytes@.len(),
    ensures
        (match r {
            Ok((v, end)) => pos < end <= bytes@.len() && dec_be_u64(bytes@.skip(pos as int))
                == Ok::<_, MuxError>((v, end - pos)),
            Err(e) => dec_be_u64(bytes@.skip(pos as int)) == Err::<(u64, int), MuxError>(e),
        }),
{
    match read_be_uint(bytes, pos, 8) {
        Ok((v, end)) => {
            proof {
                lemma_be_val_bound(bytes@.skip(pos as int).take(8));
                lemma_pow256_small();
            }
            Ok((v, end))
        },
        Err(e) => Err(e),
    }
}

/// Exactly `n` raw bytes, as an owned buffer.
pub fn read_exact(bytes: &[u8], pos: usize, n: usize) -> (r: Result<(Vec<u8>, usize), MuxError>)
    requires
        pos <= bytes@.len(),
    ensures
        (match r {
            Ok((v, end)) => pos <= end <= bytes@.len() && dec_exact(bytes@.skip(pos as int),
                n as int) == Ok::<_, MuxError>((v@, end - pos)),
            Err(e) => dec_exact(bytes@.skip(pos as int), n as int) == Err::<(Seq<u8>, int),
                MuxError>(e),
        }),
{
    if bytes.len() - pos < n {
        Err(MuxError::Underflow)
    } else {
        let sub = slice_subrange(bytes, pos, pos + n);
        let v = slice_to_vec(sub);
        assert(v@ =~= bytes@.skip(pos as int).take(n as int));
        Ok((v, pos + n))
    }
}

/// Every remaining byte, as an owned buffer.
pub fn read_to_end(bytes: &[u8], pos: usize) -> (r: Vec<u8>)
    requires
        pos <= bytes@.len(),
    ensures
        r@ == bytes@.skip(pos as int),
{
    let n = bytes.len() - pos;
    let sub = slice_subrange(bytes, pos, pos + n);
    let v = slice_to_vec(sub);
    assert(v@ =~= bytes@.skip(pos as int));
    v
}

/// Relies on `String::from_utf8`: it returns `Ok` exactly when the bytes are
/// valid UTF-8, and the characters of the returned string are then the UTF-8
/// decoding of those bytes (vstd's `valid_utf8` and `decode_utf8` model the
/// encoding `str` itself is specified with).
#[verifier::external_body]
fn bytes_into_string(bytes: Vec<u8>) -> (r: Option<String>)
    ensures
        (match r {
            Some(s) => valid_utf8(bytes@) && s@ == decode_utf8(bytes@),
            None => !valid_utf8(bytes@),
        }),
{
    String::from_utf8(bytes).ok()
}

/// A length-prefixed buffer: 2-byte big-endian length, then that many bytes.
pub fn read_len_buf(bytes: &[u8], pos: usize) -> (r: Result<(Vec<u8>, usize), MuxError>)
    requires
        pos <= bytes@.len(),
    ensures
        (match r {
            Ok((v, end)) => pos <= end <= bytes@.len() && dec_len_buf(bytes@.skip(pos as int))
                == Ok::<_, MuxError>((v@, end - pos)),
            Err(e) => dec_len_buf(bytes@.skip(pos as int)) == Err::<(Seq<u8>, int), MuxError>(e),
        }),
{
    let ghost s = bytes@.skip(pos as int);
    match read_be_u16(bytes, pos) {
        Err(e) => Err(e),
        Ok((len, p1)) => {
            proof {
                assert(bytes@.skip(p1 as int) =~= s.skip(p1 - pos));
            }
            match read_exact(bytes, p1, len as usize) {
                Err(e) => Err(e),
                Ok((v, p2)) => Ok((v, p2)),
            }
        },
    }
}

/// A length-prefixed UTF-8 string.
pub fn read_len_string(bytes: &[u8], pos: usize) -> (r: Result<(String, usize), MuxError>)
    requires
        pos <= bytes@.len(),
    ensures
        (match r {
            Ok((v, end)) => pos <= end <= bytes@.len() && dec_len_str(bytes@.skip(pos as int))
                == Ok::<_, MuxError>((v@, end - pos)),
            Err(e) => dec_len_str(bytes@.skip(pos as int)) == Err::<(Seq<char>, int), MuxError>(
                e,
            ),
        }),
{
    match read_len_buf(bytes, pos) {
        Err(e) => Err(e),
        Ok((buf, end)) => match bytes_into_string(buf) {
            Some(v) => Ok((v, end)),
            None => Err(MuxError::InvalidUtf8),
        },
    }
}

/// A correlation tag: exactly three bytes.
pub fn read_mux_tag(bytes: &[u8], pos: usize) -> (r: Result<(Tag, usize), MuxError>)
    requires
        pos <= bytes@.len(),
    ensures
        (match r {
            Ok((t, end)) => pos <= end <= bytes@.len() && dec_tag(bytes@.skip(pos as int))
                == Ok::<_, MuxError>((t, end - pos)),
            Err(e) => dec_tag(bytes@.skip(pos as int)) == Err::<(Tag, int), MuxError>(e),
        }),
{
    if bytes.len() - pos < 3 {
        Err(MuxError::Underflow)
    } else {
        let t0 = *slice_index_get(bytes, pos);
        let t1 = *slice_index_get(bytes, pos + 1);
        let t2 = *slice_index_get(bytes, pos + 2);
        proof {
            let s = bytes@.skip(pos as int);
            assert(s[0] == bytes@[pos as int]);
            assert(s[1] == bytes@[pos + 1]);
            assert(s[2] == bytes@[pos + 2]);
        }
        Ok((Tag(t0, t1, t2), pos + 3))
    }
}

/// A context: length-prefixed key, then length-prefixed value.
pub fn read_mux_context(bytes: &[u8], pos: usize) -> (r: Result<(Context, usize), MuxError>)
    requires
        pos <= bytes@.len(),
    ensures
        (match r {
            Ok((c, end)) => pos <= end <= bytes@.len() && dec_context(bytes@.skip(pos as int))
                == Ok::<_, MuxError>((c@, end - pos)),
            Err(e) => dec_context(bytes@.skip(pos as int)) == Err::<(ContextV, int), MuxError>(
                e,
            ),
        }),
{
    let ghost s = bytes@.skip(pos as int);
    match read_len_buf(bytes, pos) {
        Err(e) => Err(e),
        Ok((key, p1)) => {
            proof {
                assert(bytes@.skip(p1 as int) =~= s.skip(p1 - pos));
            }
            match read_len_buf(bytes, p1) {
                Err(e) => Err(e),
                Ok((val, p2)) => Ok((Context { key, val }, p2)),
            }
        },
    }
}

/// A delegation entry: length-prefixed source, then length-prefixed target.
pub fn read_mux_dentry(bytes: &[u8], pos: usize) -> (r: Result<(Dentry, usize), MuxError>)
    requires
        pos <= bytes@.len(),
    ensures
        (match r {
            Ok((d, end)) => pos <= end <= bytes@.len() && dec_dentry(bytes@.skip(pos as int))
                == Ok::<_, MuxError>((d@, end - pos)),
            Err(e) => dec_dentry(bytes@.skip(pos as int)) == Err::<(DentryV, int), MuxError>(e),
        }),
{
    let ghost s = bytes@.skip(pos as int);
    match read_len_string(bytes, pos) {
        Err(e) => Err(e),
        Ok((src, p1)) => {
            proof {
                assert(bytes@.skip(p1 as int) =~= s.skip(p1 - pos));
            }
            match read_len_string(bytes, p1) {
                Err(e) => Err(e),
                Ok((tree, p2)) => Ok((Dentry { src, tree }, p2)),
            }
        },
    }
}

/// A context list: 2-byte big-endian count, then that many contexts; the
/// first malformed context ends the read with its error and no partial
/// result.
pub fn read_mux_contexts(bytes: &[u8], pos: usize) -> (r: Result<(Vec<Context>, usize), MuxError>)
    requires
        pos <= bytes@.len(),
    ensures
        (match r {
            Ok((cs, end)) => pos <= end <= bytes@.len() && dec_contexts(bytes@.skip(pos as int))
                == Ok::<_, MuxError>((cs.deep_view(), end - pos)),
            Err(e) => dec_contexts(bytes@.skip(pos as int)) == Err::<(Seq<ContextV>, int),
                MuxError>(e),
        }),
{
    let ghost s = bytes@.skip(pos as int);
    match read_be_u16(bytes, pos) {
        Err(e) => Err(e),
        Ok((n, p1)) => {
            let ghost items = s.skip(p1 - pos);
            proof {
                assert(bytes@.skip(p1 as int) =~= items);
            }
            let mut acc: Vec<Context> = Vec::new();
            let mut cur: usize = p1;
            let mut i: usize = 0;
            proof {
                assert(acc.deep_view() =~= Seq::<ContextV>::empty());
            }
            while i < (n as usize)
                invariant
                    i <= n,
                    pos <= p1 <= cur <= bytes@.len(),
                    p1 == pos + 2,
                    s == bytes@.skip(pos as int),
                    items == bytes@.skip(p1 as int),
                    items == s.skip(2),
                    dec_be_u16(s) == Ok::<_, MuxError>((n, 2int)),
                    acc.deep_view().len() == i,
                    dec_contexts_n(items, n as nat) == (match dec_contexts_n(
                        bytes@.skip(cur as int),
                        (n - i) as nat,
                    ) {
                        Ok((cs, k)) => Ok::<_, MuxError>((
                            acc.deep_view() + cs,
                            (cur - p1) + k,
                        )),
                        Err(e) => Err::<(Seq<ContextV>, int), MuxError>(e),
                    }),
                decreases n - i,
            {
                let ghost acc0 = acc.deep_view();
                let ghost cur0 = cur as int;
                match read_mux_context(bytes, cur) {
                    Err(e) => {
                        proof {
                            assert(dec_contexts_n(bytes@.skip(cur as int), (n - i) as nat)
                                == Err::<(Seq<ContextV>, int), MuxError>(e));
                        }
                        return Err(e);
                    },
                    Ok((c, c2)) => {
                        proof {
                            assert(bytes@.skip(cur0).skip(c2 - cur0) =~= bytes@.skip(
                                c2 as int));
                        }
                        acc.push(c);
                        proof {
                            assert(acc.deep_view() =~= acc0.push(c@));
                            assert forall|cs: Seq<ContextV>|
                                (acc0.push(c@) + cs) =~= (acc0 + (seq![c@] + cs)) by {}
                        }
                        cur = c2;
                        i = i + 1;
                    },
                }
            }
            proof {
                assert(dec_contexts_n(bytes@.skip(cur as int), 0) == Ok::<_, MuxError>((
                    Seq::<ContextV>::empty(),
                    0int,
                )));
                assert(acc.deep_view() + Seq::<ContextV>::empty() =~= acc.deep_view());
            }
            Ok((acc, cur))
        },
    }
}

/// A delegation table: 2-byte big-endian count, then that many entries; the
/// first malformed entry ends the read with its error and no partial result.
pub fn read_mux_dtab(bytes: &[u8], pos: usize) -> (r: Result<(Dtab, usize), MuxError>)
    requires
        pos <= bytes@.len(),
    ensures
        (match r {
            Ok((d, end)) => pos <= end <= bytes@.len() && dec_dtab(bytes@.skip(pos as int))
                == Ok::<_, MuxError>((d@, end - pos)),
            Err(e) => dec_dtab(bytes@.skip(pos as int)) == Err::<(Seq<DentryV>, int), MuxError>(
                e,
            ),
        }),
{
    let ghost s = bytes@.skip(pos as int);
    match read_be_u16(bytes, pos) {
        Err(e) => Err(e),
        Ok((n, p1)) => {
            let ghost items = s.skip(p1 - pos);
            proof {
                assert(bytes@.skip(p1 as int) =~= items);
            }
            let mut acc: Vec<Dentry> = Vec::new();
            let mut cur: usize = p1;
            let mut i: usize = 0;
            proof {
                assert(acc.deep_view() =~= Seq::<DentryV>::empty());
            }
            while i < (n as usize)
                invariant
                    i <= n,
                    pos <= p1 <= cur <= bytes@.len(),
                    p1 == pos + 2,
                    s == bytes@.skip(pos as int),
                    items == bytes@.skip(p1 as int),
                    items == s.skip(2),
                    dec_be_u16(s) == Ok::<_, MuxError>((n, 2int)),
                    acc.deep_view().len() == i,
                    dec_dtab_n(items, n as nat) == (match dec_dtab_n(
                        bytes@.skip(cur as int),
                        (n - i) as nat,
                    ) {
                        Ok((ds, k)) => Ok::<_, MuxError>((
                            acc.deep_view() + ds,
                            (cur - p1) + k,
                        )),
                        Err(e) => Err::<(Seq<DentryV>, int), MuxError>(e),
                    }),
                decreases n - i,
            {
                let ghost acc0 = acc.deep_view();
                let ghost cur0 = cur as int;
                match read_mux_dentry(bytes, cur) {
                    Err(e) => {
                        proof {
                            assert(dec_dtab_n(bytes@.skip(cur as int), (n - i) as nat)
                                == Err::<(Seq<DentryV>, int), MuxError>(e));
                        }
                        return Err(e);
                    },
                    Ok((d, c2)) => {
                        proof {
                            assert(bytes@.skip(cur0).skip(c2 - cur0) =~= bytes@.skip(
                                c2 as int));
                        }
                        acc.push(d);
                        proof {
                            assert(acc.deep_view() =~= acc0.push(d@));
                            assert forall|ds: Seq<DentryV>|
                                (acc0.push(d@) + ds) =~= (acc0 + (seq![d@] + ds)) by {}
                        }
                        cur = c2;
                        i = i + 1;
                    },
                }
            }
            proof {
                assert(dec_dtab_n(bytes@.skip(cur as int), 0) == Ok::<_, MuxError>((
                    Seq::<DentryV>::empty(),
                    0int,
                )));
                assert(acc.deep_view() + Seq::<DentryV>::empty() =~= acc.deep_view());
            }
            Ok((Dtab(acc), cur))
        },
    }
}

/// Optional trace metadata: a key count, then that many `(key, size,
/// payload)` entries.  The result is present exactly when the identifier key
/// was seen; flags come from the flags key and default to zero.
pub fn read_mux_trace(bytes: &[u8], pos: usize) -> (r: Result<(Option<Trace>, usize), MuxError>)
    requires
        pos <= bytes@.len(),
    ensures
        (match r {
            Ok((t, end)) => pos <= end <= bytes@.len() && dec_trace(bytes@.skip(pos as int))
                == Ok::<_, MuxError>((t, end - pos)),
            Err(e) => dec_trace(bytes@.skip(pos as int)) == Err::<(Option<Trace>, int),
                MuxError>(e),
        }),
{
    let ghost s = bytes@.skip(pos as int);
    match read_u8(bytes, pos) {
        Err(e) => Err(e),
        Ok((nkeys, p1)) => {
            let ghost items = s.skip(p1 - pos);
            proof {
                assert(bytes@.skip(p1 as int) =~= items);
            }
            let mut ids: Option<(u64, u64, u64)> = None;
            let mut flags: u8 = 0;
            let mut cur: usize = p1;
            let mut i: usize = 0;
            while i < (nkeys as usize)
                invariant
                    i <= nkeys,
                    pos <= p1 <= cur <= bytes@.len(),
                    p1 == pos + 1,
                    s == bytes@.skip(pos as int),
                    items == bytes@.skip(p1 as int),
                    items == s.skip(1),
                    dec_u8(s) == Ok::<_, MuxError>((nkeys, 1int)),
                    dec_trace_keys(items, nkeys as nat, None, 0) == (match dec_trace_keys(
                        bytes@.skip(cur as int),
                        (nkeys - i) as nat,
                        ids,
                        flags,
                    ) {
                        Ok((st, k)) => Ok::<_, MuxError>((st, (cur - p1) + k)),
                        Err(e) => Err::<((Option<(u64, u64, u64)>, u8), int), MuxError>(e),
                    }),
                decreases nkeys - i,
            {
                let ghost rest = bytes@.skip(cur as int);
                let ghost left = (nkeys - i) as nat;
                let key = match read_u8(bytes, cur) {
                    Err(_) => {
                        proof {
                            assert(rest.len() < 2);
                            assert(dec_trace_keys(rest, left, ids, flags)
                                == Err::<((Option<(u64, u64, u64)>, u8), int), MuxError>(
                                MuxError::Underflow));
                        }
                        return Err(MuxError::Underflow);
                    },
                    Ok((key, _)) => key,
                };
                let vsize = match read_u8(bytes, cur + 1) {
                    Err(_) => {
                        proof {
                            assert(rest.len() < 2);
                            assert(dec_trace_keys(rest, left, ids, flags)
                                == Err::<((Option<(u64, u64, u64)>, u8), int), MuxError>(
                                MuxError::Underflow));
                        }
                        return Err(MuxError::Underflow);
                    },
                    Ok((vsize, _)) => vsize,
                };
                proof {
                    assert(rest.len() >= 2);
                    assert(rest[0] == key);
                    assert(rest[1] == vsize);
                }
                if key == 1 {
                    if vsize != 24 {
                        return Err(MuxError::InvalidTraceKey);
                    }
                    let span = match read_be_u64(bytes, cur + 2) {
                        Err(_) => {
                            proof {
                                assert(rest.len() < 10);
                            }
                            return Err(MuxError::Underflow);
                        },
                        Ok((v, _)) => v,
                    };
                    let parent = match read_be_u64(bytes, cur + 10) {
                        Err(_) => {
                            proof {
                                assert(rest.len() < 18);
                            }
                            return Err(MuxError::Underflow);
                        },
                        Ok((v, _)) => v,
                    };
                    let trace = match read_be_u64(bytes, cur + 18) {
                        Err(_) => {
                            proof {
                                assert(rest.len() < 26);
                            }
                            return Err(MuxError::Underflow);
                        },
                        Ok((v, _)) => v,
                    };
                    proof {
                        assert(rest.len() >= 26);
                        assert(bytes@.skip(cur + 2).take(8) =~= rest.subrange(2, 10));
                        assert(bytes@.skip(cur + 10).take(8) =~= rest.subrange(10, 18));
                        assert(bytes@.skip(cur + 18).take(8) =~= rest.subrange(18, 26));
                        assert(rest.skip(26) =~= bytes@.skip(cur + 26));
                    }
                    ids = Some((span, parent, trace));
                    cur = cur + 26;
                    i = i + 1;
                } else if key == 2 {
                    match read_exact(bytes, cur + 2, vsize as usize) {
                        Err(_) => {
                            proof {
                                assert(rest.len() < 2 + vsize);
                            }
                            return Err(MuxError::Underflow);
                        },
                        Ok((buf, c2)) => {
                            proof {
                                assert(buf@ =~= bytes@.skip(cur + 2).take(vsize as int));
                                assert(rest.skip(2 + vsize as int) =~= bytes@.skip(
                                    c2 as int));
                            }
                            if buf.len() > 0 {
                                proof {
                                    assert(buf@[vsize - 1] == rest[2 + vsize - 1]);
                                }
                                flags = buf[buf.len() - 1];
                            }
                            cur = c2;
                            i = i + 1;
                        },
                    }
                } else {
                    return Err(MuxError::UnknownTraceKey(key));
                }
            }
            proof {
                assert(dec_trace_keys(bytes@.skip(cur as int), 0, ids, flags)
                    == Ok::<_, MuxError>(((ids, flags), 0int)));
            }
            let t = match ids {
                None => None,
                Some((span_id, parent_id, trace_id)) => Some(
                    Trace { span_id, parent_id, trace_id, flags },
                ),
            };
            Ok((t, cur))
        },
    }
}

/// Every remaining byte, as a UTF-8 string.
fn read_string_to_end(bytes: &[u8], pos: usize) -> (r: Result<String, MuxError>)
    requires
        pos <= bytes@.len(),
    ensures
        (match r {
            Ok(v) => dec_str_to_end(bytes@.skip(pos as int)) == Ok::<Seq<char>, MuxError>(v@),
            Err(e) => dec_str_to_end(bytes@.skip(pos as int)) == Err::<Seq<char>, MuxError>(e),
        }),
{
    let buf = read_to_end(bytes, pos);
    match bytes_into_string(buf) {
        Some(v) => Ok(v),
        None => Err(MuxError::InvalidUtf8),
    }
}

/// The body of a `Treq`: optional trace metadata, then the payload runs to
/// the end of the frame.
pub fn read_mux_treq(bytes: &[u8], pos: usize) -> (r: Result<Tmsg, MuxError>)
    requires
        pos <= bytes@.len(),
    ensures
        (match r {
            Ok(m) => dec_tmsg_body(MsgType::Treq, bytes@.skip(pos as int)) == Ok::<TmsgV,
                MuxError>(m@),
            Err(e) => dec_tmsg_body(MsgType::Treq, bytes@.skip(pos as int)) == Err::<TmsgV,
                MuxError>(e),
        }),
{
    let ghost s = bytes@.skip(pos as int);
    match read_mux_trace(bytes, pos) {
        Err(e) => Err(e),
        Ok((trace, p1)) => {
            let body = read_to_end(bytes, p1);
            proof {
                assert(bytes@.skip(p1 as int) =~= s.skip(p1 - pos));
            }
            Ok(Tmsg::Req(trace, body))
        },
    }
}

/// The body of an `Rreq`: a status byte, then a payload, an error string, or
/// nothing, by status.
pub fn read_mux_rreq(bytes: &[u8], pos: usize) -> (r: Result<Rmsg, MuxError>)
    requires
        pos <= bytes@.len(),
    ensures
        (match r {
            Ok(m) => dec_rmsg_body(MsgType::Rreq, bytes@.skip(pos as int)) == Ok::<RmsgV,
                MuxError>(m@),
            Err(e) => dec_rmsg_body(MsgType::Rreq, bytes@.skip(pos as int)) == Err::<RmsgV,
                MuxError>(e),
        }),
{
    let ghost s = bytes@.skip(pos as int);
    match read_u8(bytes, pos) {
        Err(e) => Err(e),
        Ok((status, p1)) => {
            proof {
                assert(bytes@.skip(p1 as int) =~= s.skip(p1 - pos));
            }
            if status == 0 {
                Ok(Rmsg::ReqOk(read_to_end(bytes, p1)))
            } else if status == 1 {
                match read_string_to_end(bytes, p1) {
                    Ok(msg) => Ok(Rmsg::ReqError(msg)),
                    Err(e) => Err(e),
                }
            } else if status == 2 {
                Ok(Rmsg::ReqNack)
            } else {
                Err(MuxError::UnknownStatus(status))
            }
        },
    }
}

/// The body of a `Tdispatch`: contexts, a destination path, a delegation
/// table, then the payload runs to the end of the frame.
#[verifier::rlimit(50)]
pub fn read_mux_tdispatch(bytes: &[u8], pos: usize) -> (r: Result<Tmsg, MuxError>)
    requires
        pos <= bytes@.len(),
    ensures
        (match r {
            Ok(m) => dec_tmsg_body(MsgType::Tdispatch, bytes@.skip(pos as int)) == Ok::<TmsgV,
                MuxError>(m@),
            Err(e) => dec_tmsg_body(MsgType::Tdispatch, bytes@.skip(pos as int)) == Err::<TmsgV,
                MuxError>(e),
        }),
{
    let ghost s = bytes@.skip(pos as int);
    match read_mux_contexts(bytes, pos) {
        Err(e) => Err(e),
        Ok((contexts, p1)) => {
            proof {
                assert(bytes@.skip(p1 as int) =~= s.skip(p1 - pos));
            }
            match read_len_string(bytes, p1) {
                Err(e) => Err(e),
                Ok((dst, p2)) => {
                    proof {
                        assert(bytes@.skip(p2 as int) =~= s.skip(p2 - pos));
                    }
                    match read_mux_dtab(bytes, p2) {
                        Err(e) => Err(e),
                        Ok((dtab, p3)) => {
                            proof {
                                assert(bytes@.skip(p3 as int) =~= s.skip(p3 - pos));
                            }
                            let body = read_to_end(bytes, p3);
                            Ok(Tmsg::Dispatch(contexts, dst, dtab, body))
                        },
                    }
                },
            }
        },
    }
}

/// The body of an `Rdispatch`: a status byte (checked before anything
/// further is read), contexts, then a payload, an error string, or nothing.
pub fn read_mux_rdispatch(bytes: &[u8], pos: usize) -> (r: Result<Rmsg, MuxError>)
    requires
        pos <= bytes@.len(),
    ensures
        (match r {
            Ok(m) => dec_rmsg_body(MsgType::Rdispatch, bytes@.skip(pos as int)) == Ok::<RmsgV,
                MuxError>(m@),
            Err(e) => dec_rmsg_body(MsgType::Rdispatch, bytes@.skip(pos as int)) == Err::<RmsgV,
                MuxError>(e),
        }),
{
    let ghost s = bytes@.skip(pos as int);
    match read_u8(bytes, pos) {
        Err(e) => Err(e),
        Ok((status, p1)) => {
            if status > 2 {
                return Err(MuxError::UnknownStatus(status));
            }
            proof {
                assert(bytes@.skip(p1 as int) =~= s.skip(p1 - pos));
            }
            match read_mux_contexts(bytes, p1) {
                Err(e) => Err(e),
                Ok((contexts, p2)) => {
                    proof {
                        assert(bytes@.skip(p2 as int) =~= s.skip(p2 - pos));
                    }
                    if status == 0 {
                        Ok(Rmsg::DispatchOk(contexts, read_to_end(bytes, p2)))
                    } else if status == 1 {
                        match read_string_to_end(bytes, p2) {
                            Ok(msg) => Ok(Rmsg::DispatchError(contexts, msg)),
                            Err(e) => Err(e),
                        }
                    } else {
                        Ok(Rmsg::DispatchNack(contexts))
                    }
                },
            }
        },
    }
}

/// The body of a `Tdiscarded`: the tag of the abandoned request, then the
/// reason runs to the end of the frame.
pub fn read_mux_tdiscarded(bytes: &[u8], pos: usize) -> (r: Result<Tmsg, MuxError>)
    requires
        pos <= bytes@.len(),
    ensures
        (match r {
            Ok(m) => dec_tmsg_body(MsgType::Tdiscarded, bytes@.skip(pos as int)) == Ok::<TmsgV,
                MuxError>(m@),
            Err(e) => dec_tmsg_body(MsgType::Tdiscarded, bytes@.skip(pos as int)) == Err::<
                TmsgV, MuxError>(e),
        }),
{
    let ghost s = bytes@.skip(pos as int);
    match read_mux_tag(bytes, pos) {
        Err(e) => Err(e),
        Ok((which, p1)) => {
            proof {
                assert(bytes@.skip(p1 as int) =~= s.skip(p1 - pos));
            }
            match read_string_to_end(bytes, p1) {
                Ok(msg) => Ok(Tmsg::Discarded(which, msg)),
                Err(e) => Err(e),
            }
        },
    }
}

/// The body of a `Tlease`: a unit byte and an 8-byte big-endian amount.
pub fn read_mux_tlease(bytes: &[u8], pos: usize) -> (r: Result<Tmsg, MuxError>)
    requires
        pos <= bytes@.len(),
    ensures
        (match r {
            Ok(m) => dec_tmsg_body(MsgType::Tlease, bytes@.skip(pos as int)) == Ok::<TmsgV,
                MuxError>(m@),
            Err(e) => dec_tmsg_body(MsgType::Tlease, bytes@.skip(pos as int)) == Err::<TmsgV,
                MuxError>(e),
        }),
{
    let ghost s = bytes@.skip(pos as int);
    match read_u8(bytes, pos) {
        Err(e) => Err(e),
        Ok((unit, p1)) => {
            proof {
                assert(bytes@.skip(p1 as int) =~= s.skip(p1 - pos));
            }
            match read_be_u64(bytes, p1) {
                Err(e) => Err(e),
                Ok((amount, _)) => Ok(Tmsg::Lease(unit, amount)),
            }
        },
    }
}

/// The type-specific body of a request-direction message, dispatched on its
/// kind; a response-direction kind is not a request.
pub fn read_mux_tmsg_msg(bytes: &[u8], pos: usize, msg_type: MsgType) -> (r: Result<
    Tmsg,
    MuxError,
>)
    requires
        pos <= bytes@.len(),
    ensures
        (match r {
            Ok(m) => dec_tmsg_body(msg_type, bytes@.skip(pos as int)) == Ok::<TmsgV, MuxError>(
                m@,
            ),
            Err(e) => dec_tmsg_body(msg_type, bytes@.skip(pos as int)) == Err::<TmsgV, MuxError>(
                e,
            ),
        }),
{
    match msg_type {
        MsgType::Treq => read_mux_treq(bytes, pos),
        MsgType::Tdispatch => read_mux_tdispatch(bytes, pos),
        MsgType::Tdrain => Ok(Tmsg::Drain),
        MsgType::Tping => Ok(Tmsg::Ping),
        MsgType::Tdiscarded => read_mux_tdiscarded(bytes, pos),
        MsgType::Tlease => read_mux_tlease(bytes, pos),
        _ => Err(MuxError::UnknownMessageType(msg_type.to_i8())),
    }
}

/// The type-specific body of a response-direction message, dispatched on its
/// kind; a request-direction kind is not a response.
pub fn read_mux_rmsg_msg(bytes: &[u8], pos: usize, msg_type: MsgType) -> (r: Result<
    Rmsg,
    MuxError,
>)
    requires
        pos <= bytes@.len(),
    ensures
        (match r {
            Ok(m) => dec_rmsg_body(msg_type, bytes@.skip(pos as int)) == Ok::<RmsgV, MuxError>(
                m@,
            ),
            Err(e) => dec_rmsg_body(msg_type, bytes@.skip(pos as int)) == Err::<RmsgV, MuxError>(
                e,
            ),
        }),
{
    match msg_type {
        MsgType::Rreq => read_mux_rreq(bytes, pos),
        MsgType::Rdispatch => read_mux_rdispatch(bytes, pos),
        MsgType::Rdrain => Ok(Rmsg::Drain),
        MsgType::Rping => Ok(Rmsg::Ping),
        MsgType::Rerr => match read_string_to_end(bytes, pos) {
            Ok(msg) => Ok(Rmsg::Error(msg)),
            Err(e) => Err(e),
        },
        _ => Err(MuxError::UnknownMessageType(msg_type.to_i8())),
    }
}

/// The signed type code held by a wire byte.
fn byte_to_code(b: u8) -> (r: i8)
    ensures
        r == byte_code(b),
{
    if b < 128 {
        b as i8
    } else {
        ((b as i16) - 256) as i8
    }
}

/// A whole request-direction message: type code (checked against the closed
/// table before anything further is read), tag, then body, which runs to the
/// end of the buffer; the buffer stands for exactly one frame.
pub fn read_mux_tmsg(bytes: &[u8], pos: usize) -> (r: Result<(Tag, Tmsg), MuxError>)
    requires
        pos <= bytes@.len(),
    ensures
        (match r {
            Ok((tag, m)) => dec_tmsg(bytes@.skip(pos as int)) == Ok::<_, MuxError>((tag, m@)),
            Err(e) => dec_tmsg(bytes@.skip(pos as int)) == Err::<(Tag, TmsgV), MuxError>(e),
        }),
{
    let ghost s = bytes@.skip(pos as int);
    match read_u8(bytes, pos) {
        Err(e) => Err(e),
        Ok((b, p1)) => {
            proof {
                assert(s[0] == b);
                assert(bytes@.skip(p1 as int) =~= s.skip(1));
            }
            let code = byte_to_code(b);
            match MsgType::from_i8(code) {
                None => Err(MuxError::UnknownMessageType(code)),
                Some(t) => match read_mux_tag(bytes, p1) {
                    Err(e) => Err(e),
                    Ok((tag, p2)) => {
                        proof {
                            assert(bytes@.skip(p2 as int) =~= s.skip(1 + (p2 - p1)));
                        }
                        match read_mux_tmsg_msg(bytes, p2, t) {
                            Err(e) => Err(e),
                            Ok(m) => Ok((tag, m)),
                        }
                    },
                },
            }
        },
    }
}

/// A whole response-direction message.
pub fn read_mux_rmsg(bytes: &[u8], pos: usize) -> (r: Result<(Tag, Rmsg), MuxError>)
    requires
        pos <= bytes@.len(),
    ensures
        (match r {
            Ok((tag, m)) => dec_rmsg(bytes@.skip(pos as int)) == Ok::<_, MuxError>((tag, m@)),
            Err(e) => dec_rmsg(bytes@.skip(pos as int)) == Err::<(Tag, RmsgV), MuxError>(e),
        }),
{
    let ghost s = bytes@.skip(pos as int);
    match read_u8(bytes, pos) {
        Err(e) => Err(e),
        Ok((b, p1)) => {
            proof {
                assert(s[0] == b);
                assert(bytes@.skip(p1 as int) =~= s.skip(1));
            }
            let code = byte_to_code(b);
            match MsgType::from_i8(code) {
                None => Err(MuxError::UnknownMessageType(code)),
                Some(t) => match read_mux_tag(bytes, p1) {
                    Err(e) => Err(e),
                    Ok((tag, p2)) => {
                        proof {
                            assert(bytes@.skip(p2 as int) =~= s.skip(1 + (p2 - p1)));
                        }
                        match read_mux_rmsg_msg(bytes, p2, t) {
                            Err(e) => Err(e),
                            Ok(m) => Ok((tag, m)),
                        }
                    },
                },
            }
        },
    }
}

/// One frame off the front of the buffer: a 4-byte big-endian length, then
/// exactly that many bytes, returned as an owned buffer.  A short read is a
/// truncation.
pub fn read_be_u32_frame(bytes: &[u8], pos: usize) -> (r: Result<(Vec<u8>, usize), MuxError>)
    requires
        pos <= bytes@.len(),
    ensures
        (match r {
            Ok((v, end)) => pos <= end <= bytes@.len() && dec_frame(bytes@.skip(pos as int))
                == Ok::<_, MuxError>((v@, end - pos)),
            Err(e) => dec_frame(bytes@.skip(pos as int)) == Err::<(Seq<u8>, int), MuxError>(e),
        }),
{
    let ghost s = bytes@.skip(pos as int);
    match read_be_u32(bytes, pos) {
        Err(_) => Err(MuxError::Truncated),
        Ok((n, p1)) => {
            proof {
                lemma_be_val_bound(s.take(4));
                lemma_pow256_small();
                assert(bytes@.skip(p1 as int) =~= s.skip(4));
            }
            match read_exact(bytes, p1, n as usize) {
                Err(_) => Err(MuxError::Truncated),
                Ok((v, end)) => {
                    proof {
                        assert(s.skip(4).take(n as int) =~= s.subrange(4, 4 + n as int));
                    }
                    Ok((v, end))
                },
            }
        },
    }
}

/// One frame, decoded as a request-direction message against exactly the
/// frame's own bytes: a mis-sized field fails deterministically instead of
/// consuming bytes that belong to the next frame.
pub fn read_mux_framed_tmsg(bytes: &[u8], pos: usize) -> (r: Result<((Tag, Tmsg), usize),
    MuxError>)
    requires
        pos <= bytes@.len(),
    ensures
        (match r {
            Ok(((tag, m), end)) => pos <= end <= bytes@.len() && dec_framed_tmsg(bytes@.skip(
                pos as int)) == Ok::<_, MuxError>(((tag, m@), end - pos)),
            Err(e) => dec_framed_tmsg(bytes@.skip(pos as int)) == Err::<((Tag, TmsgV), int),
                MuxError>(e),
        }),
{
    match read_be_u32_frame(bytes, pos) {
        Err(e) => Err(e),
        Ok((frame, end)) => {
            proof {
                assert(frame@.skip(0) =~= frame@);
            }
            match read_mux_tmsg(frame.as_slice(), 0) {
                Err(e) => Err(e),
                Ok(tm) => Ok((tm, end)),
            }
        },
    }
}

/// One frame, decoded as a response-direction message against exactly the
/// frame's own bytes.
pub fn read_mux_framed_rmsg(bytes: &[u8], pos: usize) -> (r: Result<((Tag, Rmsg), usize),
    MuxError>)
    requires
        pos <= bytes@.len(),
    ensures
        (match r {
            Ok(((tag, m), end)) => pos <= end <= bytes@.len() && dec_framed_rmsg(bytes@.skip(
                pos as int)) == Ok::<_, MuxError>(((tag, m@), end - pos)),
            Err(e) => dec_framed_rmsg(bytes@.skip(pos as int)) == Err::<((Tag, RmsgV), int),
                MuxError>(e),
        }),
{
    match read_be_u32_frame(bytes, pos) {
        Err(e) => Err(e),
        Ok((frame, end)) => {
            proof {
                assert(frame@.skip(0) =~= frame@);
            }
            match read_mux_rmsg(frame.as_slice(), 0) {
                Err(e) => Err(e),
                Ok(tm) => Ok((tm, end)),
            }
        },
    }
}

/// Reads `n` elements sequentially with the supplied element decoder, each
/// picking up at the position the previous one returned; the first element
/// failure ends the read with that error and no partial result.
pub fn read_len_vec<T, F: Fn(usize) -> Result<(T, usize), MuxError>>(
    n: usize,
    pos: usize,
    f: F,
) -> (r: Result<(Vec<T>, usize), MuxError>)
    requires
        call_requires(f, (pos,)),
        forall|p: usize, t: T, q: usize|
            call_ensures(f, (p,), Ok::<(T, usize), MuxError>((t, q))) ==> p <= q
                && call_requires(f, (q,)),
    ensures
        (match r {
            Ok((v, end)) => v@.len() == n && pos <= end && exists|ps: Seq<usize>|
                #![auto]
                {
                    &&& ps.len() == n + 1
                    &&& ps[0] == pos
                    &&& ps[n as int] == end
                    &&& forall|j: int|
                        0 <= j < n ==> call_ensures(f, (ps[j],), Ok::<(T, usize), MuxError>((
                            v@[j],
                            ps[j + 1],
                        )))
                },
            Err(e) => exists|p: usize| call_ensures(f, (p,), Err::<(T, usize), MuxError>(e)),
        }),
{
    let mut vec: Vec<T> = Vec::new();
    let mut cur: usize = pos;
    let ghost mut ps: Seq<usize> = seq![pos];
    let mut i: usize = 0;
    while i < n
        invariant
            i <= n,
            pos <= cur,
            vec@.len() == i,
            ps.len() == i + 1,
            ps[0] == pos,
            ps[i as int] == cur,
            call_requires(f, (cur,)),
            forall|j: int|
                0 <= j < i ==> call_ensures(f, (ps[j],), Ok::<(T, usize), MuxError>((
                    vec@[j],
                    ps[j + 1],
                ))),
            forall|p: usize, t: T, q: usize|
                call_ensures(f, (p,), Ok::<(T, usize), MuxError>((t, q))) ==> p <= q
                    && call_requires(f, (q,)),
        decreases n - i,
    {
        match f(cur) {
            Err(e) => {
                proof {
                    assert(call_ensures(f, (cur,), Err::<(T, usize), MuxError>(e)));
                }
                return Err(e);
            },
            Ok((t, q)) => {
                vec.push(t);
                proof {
                    ps = ps.push(q);
                }
                cur = q;
                i = i + 1;
            },
        }
    }
    Ok((vec, cur))
}

} // verus!
