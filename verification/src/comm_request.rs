//! Envelope types exchanged between a worker and the broker.
//!
//! A [`CommRequest`] wraps the payload to be delivered together with the
//! metadata the broker routes by: source and destination endpoints, a
//! matching tag, the request kind and the sender's OS process id. The
//! payload type is a parameter and the broker never looks inside it.

use vstd::prelude::*;

verus! {

/// Tells a data message apart from a control query.
#[derive(Debug, Copy, Clone)]
pub enum CommRequestType {
    /// Point-to-point message from one process to another.
    Message(MType),
    /// Query addressed to the broker itself.
    Control(ControlTy),
}

/// Direction of a data message.
#[derive(Debug, Copy, Clone)]
pub enum MType {
    /// A send, blocking until a matching receive exists.
    MSend,
    /// A receive, blocking until a matching send exists.
    MRecv,
}

/// Control queries a worker can address to the broker.
#[derive(Debug, Copy, Clone)]
pub enum ControlTy {
    /// Ask for the rank of the calling process.
    GetMyRank,
    /// Ask for the number of spawned processes.
    NumProcs,
    /// Join the barrier rendezvous; the reply comes when all have.
    Barrier,
    /// Acknowledge a send once the matching receive went through.
    Ack,
    /// Announce that the calling process is done.
    Exit,
    /// Handshake only; no reply owed.
    Nop,
}

/// A communication endpoint: a specific rank or the wildcard.
#[derive(Debug, Copy, Clone, PartialEq, Eq, Hash, Structural)]
pub enum RequestProc {
    /// A specific process, named by its rank.
    Process(usize),
    /// No specific process.
    Any,
}

/// The request object every connection hands to the broker.
#[derive(Debug, Clone)]
pub struct CommRequest<T> {
    /// Source endpoint; the broker fills it in for a send.
    pub src: Option<RequestProc>,
    /// Destination endpoint; the broker fills it in for a receive.
    pub dest: Option<RequestProc>,
    /// Matching tag; the control channel uses the sentinel `u64::MAX`.
    pub tag: u64,
    /// Payload, opaque to the broker.
    pub data: Option<T>,
    /// What kind of request this is.
    pub req_ty: CommRequestType,
    /// OS process id of the sender, used only to resolve its rank.
    pub pid: u32,
}

/// The endpoint named by an optional actor; an absent side reads as the
/// wildcard, as the matching rules treat the two alike.
pub open spec fn opt_actor(a: Option<RequestProc>) -> RequestProc {
    match a {
        Some(p) => p,
        None => RequestProc::Any,
    }
}

/// Whether the request is a data-message send.
pub open spec fn req_is_send<T>(r: CommRequest<T>) -> bool {
    r.req_ty == CommRequestType::Message(MType::MSend)
}

/// Whether the request is a data-message receive.
pub open spec fn req_is_recv<T>(r: CommRequest<T>) -> bool {
    r.req_ty == CommRequestType::Message(MType::MRecv)
}

/// A data message fit for the mailbox: both sides present, and the side
/// the broker resolved — the source of a send, the destination of a
/// receive — a specific process rather than a wildcard.
pub open spec fn valid_message<T>(r: CommRequest<T>) -> bool {
    &&& r.src is Some
    &&& r.dest is Some
    &&& (req_is_send(r) || req_is_recv(r))
    &&& (req_is_send(r) ==> opt_actor(r.src) is Process)
    &&& (req_is_recv(r) ==> opt_actor(r.dest) is Process)
}

impl<T> CommRequest<T> {
    /// Build a request from its parts.
    pub fn new(
        src: Option<RequestProc>,
        dest: Option<RequestProc>,
        tag: u64,
        data: Option<T>,
        ty: CommRequestType,
        pid: u32,
    ) -> (r: CommRequest<T>)
        ensures
            r == (CommRequest { src, dest, tag, data, req_ty: ty, pid }),
    {
        CommRequest { src, dest, tag, data, req_ty: ty, pid }
    }

    /// The source endpoint, if one has been set.
    pub fn src(&self) -> (r: Option<RequestProc>)
        ensures
            r == self.src,
    {
        self.src
    }

    /// The destination endpoint, if one has been set.
    pub fn dst(&self) -> (r: Option<RequestProc>)
        ensures
            r == self.dest,
    {
        self.dest
    }

    /// The matching tag.
    pub fn tag(&self) -> (r: u64)
        ensures
            r == self.tag,
    {
        self.tag
    }

    /// A copy of the payload. Present exactly when the request carries one.
    pub fn data(&self) -> (r: Option<T>)
        where
            T: Clone,
        ensures
            r is Some <==> self.data is Some,
    {
        match &self.data {
            Some(d) => Some(d.clone()),
            None => None,
        }
    }

    /// The request kind.
    pub fn req_type(&self) -> (r: CommRequestType)
        ensures
            r == self.req_ty,
    {
        self.req_ty
    }

    /// The sender's OS process id.
    pub fn pid(&self) -> (r: u32)
        ensures
            r == self.pid,
    {
        self.pid
    }

    /// Set the source endpoint; the broker does so to resolve a send.
    pub fn set_src(&mut self, src: RequestProc)
        ensures
            *final(self) == (CommRequest { src: Some(src), ..*old(self) }),
    {
        self.src = Some(src)
    }

    /// Set the destination endpoint; the broker does so to resolve a receive.
    pub fn set_dest(&mut self, dst: RequestProc)
        ensures
            *final(self) == (CommRequest { dest: Some(dst), ..*old(self) }),
    {
        self.dest = Some(dst)
    }

    /// Whether this is a data-message send.
    pub fn is_send(&self) -> (r: bool)
        ensures
            r == req_is_send(*self),
    {
        if let CommRequestType::Message(MType::MSend) = self.req_ty {
            true
        } else {
            false
        }
    }

    /// Whether this is a data-message receive.
    pub fn is_recv(&self) -> (r: bool)
        ensures
            r == req_is_recv(*self),
    {
        if let CommRequestType::Message(MType::MRecv) = self.req_ty {
            true
        } else {
            false
        }
    }

    /// Whether the source is explicitly the wildcard.
    pub fn is_src_any(&self) -> (r: bool)
        ensures
            r == (self.src == Some(RequestProc::Any)),
    {
        if let Some(RequestProc::Any) = self.src {
            true
        } else {
            false
        }
    }

    /// Whether the destination is explicitly the wildcard.
    pub fn is_dst_any(&self) -> (r: bool)
        ensures
            r == (self.dest == Some(RequestProc::Any)),
    {
        if let Some(RequestProc::Any) = self.dest {
            true
        } else {
            false
        }
    }

    /// Whether this is a control query.
    pub fn is_request_control(&self) -> (r: bool)
        ensures
            r == (self.req_ty is Control),
    {
        if let CommRequestType::Control(_) = self.req_ty {
            true
        } else {
            false
        }
    }

    /// Whether this is a data message.
    pub fn is_request_message(&self) -> (r: bool)
        ensures
            r == !(self.req_ty is Control),
    {
        !self.is_request_control()
    }
}

/// Read the payload back out of a request object.
pub trait Extract {
    /// The payload type.
    type DType;

    /// A copy of the payload, if the request carries one.
    fn data(&self) -> Option<Self::DType>;
}

impl<T: Clone> Extract for CommRequest<T> {
    type DType = T;

    fn data(&self) -> Option<T> {
        match &self.data {
            Some(d) => Some(d.clone()),
            None => None,
        }
    }
}

} // verus!
