//! Message kinds, correlation tags, and the two message sum types, with
//! their mathematical views.

use vstd::prelude::*;

use crate::misc::{Context, ContextV, DentryV, Dtab, Trace};

verus! {

/// A 3-byte correlation identifier chosen by a request sender and echoed by
/// the responder.  Always exactly three bytes on the wire, never
/// sign-extended.
#[derive(Clone, Copy, PartialEq, Eq, Debug, Structural)]
pub struct Tag(pub u8, pub u8, pub u8);

/// The closed set of message kinds, in bijection with the signed 8-bit wire
/// type codes given by [`MsgType::to_i8`].
#[derive(Clone, PartialEq, Eq, Debug, Structural)]
pub enum MsgType {
    Treq,
    Rreq,
    Tdispatch,
    Rdispatch,
    Tdrain,
    Rdrain,
    Tping,
    Rping,
    Tdiscarded,
    Tlease,
    Rerr,
}

/// The signed 8-bit wire code of each message kind.
pub open spec fn spec_msg_type_code(t: MsgType) -> i8 {
    match t {
        MsgType::Treq => 1i8,
        MsgType::Rreq => -1i8,
        MsgType::Tdispatch => 2i8,
        MsgType::Rdispatch => -2i8,
        MsgType::Tdrain => 64i8,
        MsgType::Rdrain => -64i8,
        MsgType::Tping => 65i8,
        MsgType::Rping => -65i8,
        MsgType::Tdiscarded => 66i8,
        MsgType::Tlease => 67i8,
        MsgType::Rerr => -128i8,
    }
}

/// The kind a signed 8-bit wire code denotes, if any.
pub open spec fn spec_msg_type_of_code(code: i8) -> Option<MsgType> {
    if code == 1 {
        Some(MsgType::Treq)
    } else if code == -1 {
        Some(MsgType::Rreq)
    } else if code == 2 {
        Some(MsgType::Tdispatch)
    } else if code == -2 {
        Some(MsgType::Rdispatch)
    } else if code == 64 {
        Some(MsgType::Tdrain)
    } else if code == -64 {
        Some(MsgType::Rdrain)
    } else if code == 65 {
        Some(MsgType::Tping)
    } else if code == -65 {
        Some(MsgType::Rping)
    } else if code == 66 {
        Some(MsgType::Tdiscarded)
    } else if code == 67 {
        Some(MsgType::Tlease)
    } else if code == -128 {
        Some(MsgType::Rerr)
    } else {
        None
    }
}

/// The two spec maps above are mutually inverse, so the code table is a
/// bijection between kinds and the codes it lists.
pub proof fn lemma_msg_type_code_bijective()
    ensures
        forall|t: MsgType| spec_msg_type_of_code(#[trigger] spec_msg_type_code(t)) == Some(t),
        forall|code: i8, t: MsgType|
            spec_msg_type_of_code(code) == Some(t) ==> spec_msg_type_code(t) == code,
{
}

impl MsgType {
    /// Maps a signed wire type code to its message kind; `None` exactly on
    /// the codes outside the closed table.
    pub fn from_i8(code: i8) -> (r: Option<MsgType>)
        ensures
            r == spec_msg_type_of_code(code),
    {
        if code == 1 {
            Some(MsgType::Treq)
        } else if code == -1 {
            Some(MsgType::Rreq)
        } else if code == 2 {
            Some(MsgType::Tdispatch)
        } else if code == -2 {
            Some(MsgType::Rdispatch)
        } else if code == 64 {
            Some(MsgType::Tdrain)
        } else if code == -64 {
            Some(MsgType::Rdrain)
        } else if code == 65 {
            Some(MsgType::Tping)
        } else if code == -65 {
            Some(MsgType::Rping)
        } else if code == 66 {
            Some(MsgType::Tdiscarded)
        } else if code == 67 {
            Some(MsgType::Tlease)
        } else if code == -128 {
            Some(MsgType::Rerr)
        } else {
            None
        }
    }

    /// The signed wire type code of this kind.
    pub fn to_i8(self) -> (r: i8)
        ensures
            r == spec_msg_type_code(self),
    {
        match self {
            MsgType::Treq => 1,
            MsgType::Rreq => -1,
            MsgType::Tdispatch => 2,
            MsgType::Rdispatch => -2,
            MsgType::Tdrain => 64,
            MsgType::Rdrain => -64,
            MsgType::Tping => 65,
            MsgType::Rping => -65,
            MsgType::Tdiscarded => 66,
            MsgType::Tlease => 67,
            MsgType::Rerr => -128,
        }
    }
}

/// A request-direction message, carried under a sender-chosen tag.
#[derive(Clone, PartialEq, Eq, Debug)]
pub enum Tmsg {
    /// Optional trace metadata and an opaque request payload.
    Req(Option<Trace>, Vec<u8>),
    /// Contexts, a destination path, a delegation table, and a payload.
    Dispatch(Vec<Context>, String, Dtab, Vec<u8>),
    /// The receiver should stop sending new requests.
    Drain,
    /// Liveness probe.
    Ping,
    /// The tag of an abandoned request and a reason.
    Discarded(Tag, String),
    /// A lease of `amount` units (unit code, amount).
    Lease(u8, u64),
}

/// Mathematical view of a [`Tmsg`].
pub ghost enum TmsgV {
    Req(Option<Trace>, Seq<u8>),
    Dispatch(Seq<ContextV>, Seq<char>, Seq<DentryV>, Seq<u8>),
    Drain,
    Ping,
    Discarded(Tag, Seq<char>),
    Lease(u8, u64),
}

impl View for Tmsg {
    type V = TmsgV;

    open spec fn view(&self) -> TmsgV {
        match self {
            Tmsg::Req(trace, body) => TmsgV::Req(*trace, body@),
            Tmsg::Dispatch(contexts, dst, dtab, body) => TmsgV::Dispatch(
                contexts.deep_view(),
                dst@,
                dtab@,
                body@,
            ),
            Tmsg::Drain => TmsgV::Drain,
            Tmsg::Ping => TmsgV::Ping,
            Tmsg::Discarded(which, msg) => TmsgV::Discarded(*which, msg@),
            Tmsg::Lease(unit, amount) => TmsgV::Lease(*unit, *amount),
        }
    }
}

/// The kind a request-direction message travels under.
pub open spec fn spec_tmsg_type(m: TmsgV) -> MsgType {
    match m {
        TmsgV::Req(_, _) => MsgType::Treq,
        TmsgV::Dispatch(_, _, _, _) => MsgType::Tdispatch,
        TmsgV::Drain => MsgType::Tdrain,
        TmsgV::Ping => MsgType::Tping,
        TmsgV::Discarded(_, _) => MsgType::Tdiscarded,
        TmsgV::Lease(_, _) => MsgType::Tlease,
    }
}

impl Tmsg {
    pub fn get_type(&self) -> (r: MsgType)
        ensures
            r == spec_tmsg_type(self@),
    {
        match self {
            Tmsg::Req(_, _) => MsgType::Treq,
            Tmsg::Dispatch(_, _, _, _) => MsgType::Tdispatch,
            Tmsg::Drain => MsgType::Tdrain,
            Tmsg::Ping => MsgType::Tping,
            Tmsg::Discarded(_, _) => MsgType::Tdiscarded,
            Tmsg::Lease(_, _) => MsgType::Tlease,
        }
    }
}

/// A response-direction message, echoing the tag of the request it answers.
#[derive(Clone, PartialEq, Eq, Debug)]
pub enum Rmsg {
    /// Successful reply to a `Req`: an opaque payload.
    ReqOk(Vec<u8>),
    /// Failed reply to a `Req`: an error description.
    ReqError(String),
    /// Negative acknowledgement of a `Req`.
    ReqNack,
    /// Successful reply to a `Dispatch`: contexts and a payload.
    DispatchOk(Vec<Context>, Vec<u8>),
    /// Failed reply to a `Dispatch`: contexts and an error description.
    DispatchError(Vec<Context>, String),
    /// Negative acknowledgement of a `Dispatch`.
    DispatchNack(Vec<Context>),
    /// Acknowledges a drain request.
    Drain,
    /// Answers a liveness probe.
    Ping,
    /// A session-level error description.
    Error(String),
}

/// Mathematical view of an [`Rmsg`].
pub ghost enum RmsgV {
    ReqOk(Seq<u8>),
    ReqError(Seq<char>),
    ReqNack,
    DispatchOk(Seq<ContextV>, Seq<u8>),
    DispatchError(Seq<ContextV>, Seq<char>),
    DispatchNack(Seq<ContextV>),
    Drain,
    Ping,
    Error(Seq<char>),
}

impl View for Rmsg {
    type V = RmsgV;

    open spec fn view(&self) -> RmsgV {
        match self {
            Rmsg::ReqOk(body) => RmsgV::ReqOk(body@),
            Rmsg::ReqError(msg) => RmsgV::ReqError(msg@),
            Rmsg::ReqNack => RmsgV::ReqNack,
            Rmsg::DispatchOk(contexts, body) => RmsgV::DispatchOk(contexts.deep_view(), body@),
            Rmsg::DispatchError(contexts, msg) => RmsgV::DispatchError(
                contexts.deep_view(),
                msg@,
            ),
            Rmsg::DispatchNack(contexts) => RmsgV::DispatchNack(contexts.deep_view()),
            Rmsg::Drain => RmsgV::Drain,
            Rmsg::Ping => RmsgV::Ping,
            Rmsg::Error(msg) => RmsgV::Error(msg@),
        }
    }
}

/// The kind a response-direction message travels under.
pub open spec fn spec_rmsg_type(m: RmsgV) -> MsgType {
    match m {
        RmsgV::ReqOk(_) => MsgType::Rreq,
        RmsgV::ReqError(_) => MsgType::Rreq,
        RmsgV::ReqNack => MsgType::Rreq,
        RmsgV::DispatchOk(_, _) => MsgType::Rdispatch,
        RmsgV::DispatchError(_, _) => MsgType::Rdispatch,
        RmsgV::DispatchNack(_) => MsgType::Rdispatch,
        RmsgV::Drain => MsgType::Rdrain,
        RmsgV::Ping => MsgType::Rping,
        RmsgV::Error(_) => MsgType::Rerr,
    }
}

impl Rmsg {
    pub fn get_type(&self) -> (r: MsgType)
        ensures
            r == spec_rmsg_type(self@),
    {
        match self {
            Rmsg::ReqOk(_) => MsgType::Rreq,
            Rmsg::ReqError(_) => MsgType::Rreq,
            Rmsg::ReqNack => MsgType::Rreq,
            Rmsg::DispatchOk(_, _) => MsgType::Rdispatch,
            Rmsg::DispatchError(_, _) => MsgType::Rdispatch,
            Rmsg::DispatchNack(_) => MsgType::Rdispatch,
            Rmsg::Drain => MsgType::Rdrain,
            Rmsg::Ping => MsgType::Rping,
            Rmsg::Error(_) => MsgType::Rerr,
        }
    }
}

} // verus!
