//! Value types carried inside mux messages, their mathematical views, and the
//! error taxonomy shared by the whole codec.

use vstd::prelude::*;

verus! {

/// A delegation-table entry: a source path rewritten to a target path.
#[derive(Clone, PartialEq, Eq, Debug)]
pub struct Dentry {
    pub src: String,
    pub tree: String,
}

/// Mathematical view of a [`Dentry`]: both paths as character sequences.
pub ghost struct DentryV {
    pub src: Seq<char>,
    pub tree: Seq<char>,
}

impl View for Dentry {
    type V = DentryV;

    open spec fn view(&self) -> DentryV {
        DentryV { src: self.src@, tree: self.tree@ }
    }
}

impl DeepView for Dentry {
    type V = DentryV;

    open spec fn deep_view(&self) -> DentryV {
        self@
    }
}

impl Dentry {
    pub fn new(s: String, t: String) -> (r: Dentry)
        ensures
            r@ == (DentryV { src: s@, tree: t@ }),
    {
        Dentry { src: s, tree: t }
    }
}

/// An ordered delegation table; order is wire-significant.
#[derive(Clone, PartialEq, Eq, Debug)]
pub struct Dtab(pub Vec<Dentry>);

impl View for Dtab {
    type V = Seq<DentryV>;

    open spec fn view(&self) -> Seq<DentryV> {
        self.0.deep_view()
    }
}

impl Dtab {
    pub fn empty() -> (r: Dtab)
        ensures
            r@ == Seq::<DentryV>::empty(),
    {
        Dtab(Vec::new())
    }
}

/// An opaque key/value byte-buffer pair carried alongside a dispatch request.
#[derive(Clone, PartialEq, Eq, Debug)]
pub struct Context {
    pub key: Vec<u8>,
    pub val: Vec<u8>,
}

/// Mathematical view of a [`Context`]: key and value as byte sequences.
pub ghost struct ContextV {
    pub key: Seq<u8>,
    pub val: Seq<u8>,
}

impl View for Context {
    type V = ContextV;

    open spec fn view(&self) -> ContextV {
        ContextV { key: self.key@, val: self.val@ }
    }
}

impl DeepView for Context {
    type V = ContextV;

    open spec fn deep_view(&self) -> ContextV {
        self@
    }
}

impl Context {
    pub fn new(k: Vec<u8>, v: Vec<u8>) -> (r: Context)
        ensures
            r@ == (ContextV { key: k@, val: v@ }),
    {
        Context { key: k, val: v }
    }
}

/// An ordered sequence of [`Context`] pairs; duplicate keys are legal and
/// order is preserved on the wire.
#[derive(Clone, PartialEq, Eq, Debug)]
pub struct Contexts(pub Vec<Context>);

impl View for Contexts {
    type V = Seq<ContextV>;

    open spec fn view(&self) -> Seq<ContextV> {
        self.0.deep_view()
    }
}

/// Optional distributed-tracing metadata: three 64-bit correlation
/// identifiers and a flags bitmask.
#[derive(Clone, Copy, PartialEq, Eq, Debug, Structural)]
pub struct Trace {
    pub span_id: u64,
    pub parent_id: u64,
    pub trace_id: u64,
    pub flags: u8,
}

/// Everything that can go wrong while decoding bytes into a message or
/// encoding a message into bytes.  Every error is terminal for the single
/// call that produced it; the codec never retries internally.
#[derive(Clone, Copy, PartialEq, Eq, Debug, Structural)]
pub enum MuxError {
    /// A frame declared more bytes than the input holds.
    Truncated,
    /// A field declared more bytes than remain in the current frame.
    Underflow,
    /// The envelope type code is not in the closed message-type table.
    UnknownMessageType(i8),
    /// A response status byte outside `{0, 1, 2}`.
    UnknownStatus(u8),
    /// A string field's bytes are not valid UTF-8.
    InvalidUtf8,
    /// A trace key identifier outside the known key set.
    UnknownTraceKey(u8),
    /// A known trace key with an impossible payload size.
    InvalidTraceKey,
    /// A buffer, string or element count too large for its length prefix.
    EncodingOverflow,
}

} // verus!
