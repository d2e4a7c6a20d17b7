use mpirs::broker::{BrokerAction, BrokerState, ProtocolError};
use mpirs::comm_request::{CommRequest, CommRequestType, ControlTy, MType, RequestProc};
use mpirs::rank::RankTable;

const CTRL_TAG: u64 = u64::MAX;

fn three_workers() -> RankTable {
    let mut t = RankTable::new();
    assert!(t.register(501));
    assert!(t.register(502));
    assert!(t.register(503));
    t
}

fn control(ty: ControlTy, pid: u32) -> CommRequest<String> {
    CommRequest::new(None, None, CTRL_TAG, None, CommRequestType::Control(ty), pid)
}

#[test]
fn broker_rank_and_numprocs_replies() {
    let mut b: BrokerState<String, u32> = BrokerState::new(three_workers());
    match b.handle_request(control(ControlTy::GetMyRank, 502), 10) {
        BrokerAction::RankReply(conn, rank) => {
            assert_eq!(conn, 10);
            assert_eq!(rank, 1);
        }
        _ => panic!("expected a rank reply"),
    }
    // the same pid resolves to the same rank, however often it asks
    match b.handle_request(control(ControlTy::GetMyRank, 502), 11) {
        BrokerAction::RankReply(_, rank) => assert_eq!(rank, 1),
        _ => panic!("expected a rank reply"),
    }
    match b.handle_request(control(ControlTy::NumProcs, 501), 12) {
        BrokerAction::NumProcsReply(conn, n) => {
            assert_eq!(conn, 12);
            assert_eq!(n, 3);
        }
        _ => panic!("expected a process count reply"),
    }
}

#[test]
fn broker_unknown_pid_is_rejected() {
    let mut b: BrokerState<String, u32> = BrokerState::new(three_workers());
    match b.handle_request(control(ControlTy::GetMyRank, 999), 10) {
        BrokerAction::Rejected(conn, e) => {
            assert_eq!(conn, 10);
            assert_eq!(e, ProtocolError::UnknownPid);
        }
        _ => panic!("expected a rejection"),
    }
}

#[test]
fn broker_ack_is_invalid_control() {
    let mut b: BrokerState<String, u32> = BrokerState::new(three_workers());
    match b.handle_request(control(ControlTy::Ack, 501), 10) {
        BrokerAction::Rejected(_, e) => assert_eq!(e, ProtocolError::InvalidControl),
        _ => panic!("expected a rejection"),
    }
}

#[test]
fn broker_nop_needs_no_reply() {
    let mut b: BrokerState<String, u32> = BrokerState::new(three_workers());
    assert!(matches!(
        b.handle_request(control(ControlTy::Nop, 501), 10),
        BrokerAction::NoReply
    ));
}

#[test]
fn broker_barrier_releases_all_three_then_restarts() {
    let mut b: BrokerState<String, u32> = BrokerState::new(three_workers());
    assert!(matches!(
        b.handle_request(control(ControlTy::Barrier, 501), 21),
        BrokerAction::BarrierHeld
    ));
    assert!(matches!(
        b.handle_request(control(ControlTy::Barrier, 502), 22),
        BrokerAction::BarrierHeld
    ));
    match b.handle_request(control(ControlTy::Barrier, 503), 23) {
        BrokerAction::BarrierRelease(v) => assert_eq!(v, vec![21, 22, 23]),
        _ => panic!("expected the barrier to release"),
    }
    // a fourth arrival starts a fresh rendezvous cycle
    assert!(matches!(
        b.handle_request(control(ControlTy::Barrier, 501), 24),
        BrokerAction::BarrierHeld
    ));
}

#[test]
fn broker_terminates_after_all_exits() {
    let mut b: BrokerState<String, u32> = BrokerState::new(three_workers());
    assert!(matches!(
        b.handle_request(control(ControlTy::Exit, 501), 31),
        BrokerAction::ExitNoted
    ));
    assert!(matches!(
        b.handle_request(control(ControlTy::Exit, 502), 32),
        BrokerAction::ExitNoted
    ));
    assert!(matches!(
        b.handle_request(control(ControlTy::Exit, 503), 33),
        BrokerAction::Terminate
    ));
}

#[test]
fn broker_resolves_and_matches_send_to_waiting_recv() {
    let mut b: BrokerState<String, u32> = BrokerState::new(three_workers());
    // worker 502 (rank 1) posts a receive from anyone; it queues
    let recv: CommRequest<String> = CommRequest::new(
        Some(RequestProc::Any),
        None,
        7,
        None,
        CommRequestType::Message(MType::MRecv),
        502,
    );
    assert!(matches!(b.handle_request(recv, 41), BrokerAction::Queued));
    // worker 501 (rank 0) sends to rank 1; the broker pairs the two
    let send: CommRequest<String> = CommRequest::new(
        None,
        Some(RequestProc::Process(1)),
        7,
        Some("hello".to_string()),
        CommRequestType::Message(MType::MSend),
        501,
    );
    match b.handle_request(send, 42) {
        BrokerAction::Matched { data, recv_conn, send_conn } => {
            assert_eq!(recv_conn, 41);
            assert_eq!(send_conn, 42);
            assert_eq!(data.data, Some("hello".to_string()));
            // the broker resolved the sender's rank into the envelope
            assert_eq!(data.src, Some(RequestProc::Process(0)));
        }
        _ => panic!("expected a match"),
    }
}

#[test]
fn broker_recv_finds_queued_send_payload() {
    let mut b: BrokerState<String, u32> = BrokerState::new(three_workers());
    let send: CommRequest<String> = CommRequest::new(
        None,
        Some(RequestProc::Process(1)),
        7,
        Some("payload".to_string()),
        CommRequestType::Message(MType::MSend),
        501,
    );
    assert!(matches!(b.handle_request(send, 51), BrokerAction::Queued));
    let recv: CommRequest<String> = CommRequest::new(
        Some(RequestProc::Process(0)),
        None,
        7,
        None,
        CommRequestType::Message(MType::MRecv),
        502,
    );
    match b.handle_request(recv, 52) {
        BrokerAction::Matched { data, recv_conn, send_conn } => {
            assert_eq!(recv_conn, 52);
            assert_eq!(send_conn, 51);
            assert_eq!(data.data, Some("payload".to_string()));
        }
        _ => panic!("expected a match"),
    }
}

#[test]
fn broker_send_without_destination_is_malformed() {
    let mut b: BrokerState<String, u32> = BrokerState::new(three_workers());
    let send: CommRequest<String> =
        CommRequest::new(None, None, 7, None, CommRequestType::Message(MType::MSend), 501);
    match b.handle_request(send, 61) {
        BrokerAction::Rejected(conn, e) => {
            assert_eq!(conn, 61);
            assert_eq!(e, ProtocolError::Malformed);
        }
        _ => panic!("expected a rejection"),
    }
}

#[test]
fn broker_message_from_unknown_pid_is_rejected() {
    let mut b: BrokerState<String, u32> = BrokerState::new(three_workers());
    let send: CommRequest<String> = CommRequest::new(
        None,
        Some(RequestProc::Process(1)),
        7,
        None,
        CommRequestType::Message(MType::MSend),
        999,
    );
    assert!(matches!(
        b.handle_request(send, 62),
        BrokerAction::Rejected(_, ProtocolError::UnknownPid)
    ));
}
