//! The broker's dispatch state machine.
//!
//! One request is read per connection; this module classifies it and
//! routes it to the rank table, the barrier rendezvous or the mailbox,
//! handing back the action the transport layer must perform: reply on
//! a connection, release a set of held connections, keep a connection
//! open, or stop. The broker state is a single owned value threaded
//! through the loop; every mutation of the mailbox, the barrier and
//! the exit counter goes through [`BrokerState::handle_request`].

use vstd::prelude::*;

use crate::barrier::BarrierGroup;
use crate::comm_request::{
    req_is_send, valid_message, CommRequest, CommRequestType, ControlTy, MType, RequestProc,
};
use crate::mailbox::{has_match, popped_match, Mail, Mailbox};
use crate::rank::RankTable;

verus! {

/// Why a connection is dropped rather than served.
#[derive(Debug, Copy, Clone, PartialEq, Eq, Structural)]
pub enum ProtocolError {
    /// A query or message from a process the rank table does not know.
    UnknownPid,
    /// A control request the broker never receives, such as an
    /// acknowledgement.
    InvalidControl,
    /// A data message missing the endpoint it must name: the
    /// destination of a send, the source of a receive.
    Malformed,
}

/// What the transport layer must do after one request was handled.
pub enum BrokerAction<T, H> {
    /// Handshake only: nothing owed.
    NoReply,
    /// Write the rank back on the connection; it then closes.
    RankReply(H, usize),
    /// Write the process count back on the connection; it then closes.
    NumProcsReply(H, usize),
    /// The connection joins the barrier's waiting set and stays open.
    BarrierHeld,
    /// The barrier released: acknowledge every held connection.
    BarrierRelease(Vec<H>),
    /// An exit was counted; keep accepting.
    ExitNoted,
    /// Every worker has exited: stop accepting.
    Terminate,
    /// A match: write the data envelope to the receiver's connection
    /// and acknowledge the sender's; both then close.
    Matched {
        /// The envelope whose payload the receiver is owed.
        data: CommRequest<T>,
        /// The matched receive's connection.
        recv_conn: H,
        /// The matched send's connection.
        send_conn: H,
    },
    /// No counterpart yet: the request was filed and its connection is
    /// held by the mailbox until a counterpart arrives.
    Queued,
    /// Protocol violation: close this connection and carry on.
    Rejected(H, ProtocolError),
}

/// The fixed acknowledgement envelope: `Control(Ack)` on the control
/// tag, no payload, no endpoints.
pub fn make_ack<T>() -> (r: CommRequest<T>)
    ensures
        r == (CommRequest::<T> {
            src: None,
            dest: None,
            tag: u64::MAX,
            data: None,
            req_ty: CommRequestType::Control(ControlTy::Ack),
            pid: 0,
        }),
{
    CommRequest::new(None, None, u64::MAX, None, CommRequestType::Control(ControlTy::Ack), 0)
}

/// The broker's whole mutable state for one run.
pub struct BrokerState<T, H> {
    /// The matching engine for pending sends and receives.
    pub mailbox: Mailbox<T, H>,
    /// The pid-to-rank mapping, fixed before accepting starts.
    pub ranks: RankTable,
    /// The barrier rendezvous of the current cycle.
    pub barrier: BarrierGroup<H>,
    /// How many workers have announced their exit.
    pub exit_count: usize,
    /// The number of spawned workers.
    pub num_procs: usize,
}

/// A data message with the broker's resolution applied: the caller's
/// rank fills the side the wire leaves open — the source of a send,
/// the destination of a receive.
pub open spec fn resolved_req<T>(req: CommRequest<T>, rank: usize) -> CommRequest<T> {
    if req_is_send(req) {
        CommRequest { src: Some(RequestProc::Process(rank)), ..req }
    } else {
        CommRequest { dest: Some(RequestProc::Process(rank)), ..req }
    }
}

/// A data message the broker can resolve: its own side may be anything
/// (the broker overwrites it), but the side it addresses must be named.
pub open spec fn addressable<T>(req: CommRequest<T>) -> bool {
    if req_is_send(req) {
        req.dest is Some
    } else {
        req.src is Some
    }
}

impl<T, H> BrokerState<T, H> {
    /// Well-formed: every component is, the barrier releases at the
    /// process count, the rank table covers exactly the spawned
    /// workers, and the exit counter never passes the process count.
    pub open spec fn wf(self) -> bool {
        &&& self.mailbox.wf()
        &&& self.ranks.wf()
        &&& self.barrier.wf()
        &&& self.barrier.group_size() == self.num_procs
        &&& self.ranks@.len() == self.num_procs
        &&& self.exit_count <= self.num_procs
        &&& self.num_procs >= 1
    }

    /// A fresh broker over a built rank table: empty mailbox, empty
    /// barrier cycle, no exits counted.
    pub fn new(ranks: RankTable) -> (r: BrokerState<T, H>)
        requires
            ranks.wf(),
            ranks@.len() >= 1,
        ensures
            r.wf(),
            r.mailbox@ == Seq::<(Mail<T>, H)>::empty(),
            r.mailbox.next_id() == 0,
            r.ranks == ranks,
            r.barrier@ == Seq::<H>::empty(),
            r.exit_count == 0,
            r.num_procs == ranks@.len(),
    {
        let n = ranks.num_procs();
        BrokerState {
            mailbox: Mailbox::new(),
            ranks,
            barrier: BarrierGroup::new(n),
            exit_count: 0,
            num_procs: n,
        }
    }

    /// Handle one request read from one connection, and say what the
    /// transport layer owes whom. Control queries are answered from
    /// the rank table, barrier and exit bookkeeping; a data message
    /// has its open side resolved to the caller's rank and is then
    /// matched against the mailbox, or filed there with its
    /// connection. A request no contract covers costs only its own
    /// connection.
    pub fn handle_request(&mut self, req: CommRequest<T>, conn: H) -> (a: BrokerAction<T, H>)
        requires
            old(self).wf(),
            old(self).mailbox.next_id() < usize::MAX,
        ensures
            final(self).wf(),
            final(self).ranks == old(self).ranks,
            final(self).num_procs == old(self).num_procs,
            // handshake: nothing changes, nothing owed
            req.req_ty == CommRequestType::Control(ControlTy::Nop) ==> a is NoReply
                && *final(self) == *old(self),
            // rank query: answered from the table, or refused unknown
            req.req_ty == CommRequestType::Control(ControlTy::GetMyRank) ==> *final(self)
                == *old(self) && (match old(self).ranks.spec_rank(req.pid) {
                Some(rk) => a == BrokerAction::<T, H>::RankReply(conn, rk),
                None => a == BrokerAction::<T, H>::Rejected(conn, ProtocolError::UnknownPid),
            }),
            // process count query: always answerable
            req.req_ty == CommRequestType::Control(ControlTy::NumProcs) ==> *final(self)
                == *old(self) && a == BrokerAction::<T, H>::NumProcsReply(
                conn,
                old(self).num_procs,
            ),
            // barrier: hold the connection, or release the full group
            req.req_ty == CommRequestType::Control(ControlTy::Barrier) ==> {
                &&& final(self).mailbox == old(self).mailbox
                &&& final(self).exit_count == old(self).exit_count
                &&& match a {
                    BrokerAction::BarrierRelease(v) => {
                        &&& old(self).barrier@.len() + 1 == old(self).num_procs
                        &&& v@ == old(self).barrier@.push(conn)
                        &&& final(self).barrier@ == Seq::<H>::empty()
                    },
                    BrokerAction::BarrierHeld => {
                        &&& old(self).barrier@.len() + 1 < old(self).num_procs
                        &&& final(self).barrier@ == old(self).barrier@.push(conn)
                    },
                    _ => false,
                }
            },
            // exit: counted once per worker; the last one stops the run
            req.req_ty == CommRequestType::Control(ControlTy::Exit) ==> {
                &&& final(self).mailbox == old(self).mailbox
                &&& final(self).barrier == old(self).barrier
                &&& final(self).exit_count == (if old(self).exit_count < old(self).num_procs {
                    old(self).exit_count + 1
                } else {
                    old(self).exit_count as int
                })
                &&& a == (if final(self).exit_count == old(self).num_procs {
                    BrokerAction::<T, H>::Terminate
                } else {
                    BrokerAction::<T, H>::ExitNoted
                })
            },
            // an acknowledgement never reaches the broker as a request
            req.req_ty == CommRequestType::Control(ControlTy::Ack) ==> a
                == BrokerAction::<T, H>::Rejected(conn, ProtocolError::InvalidControl)
                && *final(self) == *old(self),
            // a data message missing its addressed side is refused
            req.req_ty is Message && !addressable(req) ==> a == BrokerAction::<T, H>::Rejected(
                conn,
                ProtocolError::Malformed,
            ) && *final(self) == *old(self),
            // a data message from an unknown process is refused
            req.req_ty is Message && addressable(req) && old(self).ranks.spec_rank(req.pid)
                is None ==> a == BrokerAction::<T, H>::Rejected(conn, ProtocolError::UnknownPid)
                && *final(self) == *old(self),
            // a resolvable data message is matched or filed
            req.req_ty is Message && addressable(req) && old(self).ranks.spec_rank(req.pid)
                is Some ==> {
                let rr = resolved_req(req, old(self).ranks.spec_rank(req.pid)->0);
                &&& final(self).barrier == old(self).barrier
                &&& final(self).exit_count == old(self).exit_count
                &&& match a {
                    BrokerAction::Matched { data, recv_conn, send_conn } => exists |m: Mail<T>, hc: H|
                        {
                            &&& #[trigger] popped_match(
                                old(self).mailbox@,
                                final(self).mailbox@,
                                rr,
                                (m, hc),
                            )
                            &&& req_is_send(req) ==> data == rr && recv_conn == hc && send_conn
                                == conn
                            &&& !req_is_send(req) ==> data == m.req && recv_conn == conn
                                && send_conn == hc
                        },
                    BrokerAction::Queued => {
                        &&& !has_match(old(self).mailbox@, rr)
                        &&& final(self).mailbox@ == old(self).mailbox@.push(
                            ((Mail { id: old(self).mailbox.next_id(), req: rr }), conn),
                        )
                    },
                    _ => false,
                }
            },
    {
        match req.req_type() {
            CommRequestType::Control(ctrl) => match ctrl {
                ControlTy::Nop => BrokerAction::NoReply,
                ControlTy::Barrier => match self.barrier.arrive(conn) {
                    Some(v) => BrokerAction::BarrierRelease(v),
                    None => BrokerAction::BarrierHeld,
                },
                ControlTy::GetMyRank => match self.ranks.rank_of(req.pid()) {
                    Some(rk) => BrokerAction::RankReply(conn, rk),
                    None => BrokerAction::Rejected(conn, ProtocolError::UnknownPid),
                },
                ControlTy::NumProcs => BrokerAction::NumProcsReply(conn, self.num_procs),
                ControlTy::Exit => {
                    if self.exit_count < self.num_procs {
                        self.exit_count = self.exit_count + 1;
                    }
                    if self.exit_count == self.num_procs {
                        BrokerAction::Terminate
                    } else {
                        BrokerAction::ExitNoted
                    }
                },
                ControlTy::Ack => BrokerAction::Rejected(conn, ProtocolError::InvalidControl),
            },
            CommRequestType::Message(_) => {
                let mut req = req;
                if req.is_send() && req.dst().is_none() {
                    return BrokerAction::Rejected(conn, ProtocolError::Malformed);
                }
                if req.is_recv() && req.src().is_none() {
                    return BrokerAction::Rejected(conn, ProtocolError::Malformed);
                }
                match self.ranks.rank_of(req.pid()) {
                    None => BrokerAction::Rejected(conn, ProtocolError::UnknownPid),
                    Some(rk) => {
                        if req.is_send() {
                            req.set_src(RequestProc::Process(rk));
                        } else {
                            req.set_dest(RequestProc::Process(rk));
                        }
                        let was_send = req.is_send();
                        match self.mailbox.pop_matching_mail(&req) {
                            Some((m, hc)) => {
                                if was_send {
                                    BrokerAction::Matched { data: req, recv_conn: hc, send_conn: conn }
                                } else {
                                    BrokerAction::Matched {
                                        data: m.req,
                                        recv_conn: conn,
                                        send_conn: hc,
                                    }
                                }
                            },
                            None => {
                                self.mailbox.insert_mail(req, conn);
                                BrokerAction::Queued
                            },
                        }
                    },
                }
            },
        }
    }
}

} // verus!
