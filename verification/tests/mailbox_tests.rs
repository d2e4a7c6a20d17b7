use mpirs::comm_request::{CommRequest, CommRequestType, MType, RequestProc};
use mpirs::mailbox::Mailbox;

const COMM_TAG: u64 = 42;

fn handle() -> u32 {
    1000
}

#[test]
fn box_insert_get_proc_to_proc() {
    let mut mailbox = Mailbox::new();
    let req = CommRequest::new(
        Some(RequestProc::Process(0)),
        Some(RequestProc::Process(1)),
        COMM_TAG,
        Some(5u64),
        CommRequestType::Message(MType::MSend),
        1000u32,
    );

    let req_recv = CommRequest::<u64>::new(
        Some(RequestProc::Process(0)),
        Some(RequestProc::Process(1)),
        COMM_TAG,
        None,
        CommRequestType::Message(MType::MRecv),
        1000u32,
    );

    mailbox.insert_mail(req, handle());
    assert!(mailbox.pop_matching_mail(&req_recv).is_some());
}

#[test]
fn box_insert_get_proc_to_any() {
    let mut mailbox = Mailbox::new();
    let req = CommRequest::<u64>::new(
        Some(RequestProc::Process(0)),
        Some(RequestProc::Process(1)),
        COMM_TAG,
        Some(5u64),
        CommRequestType::Message(MType::MSend),
        1000u32,
    );

    let req_recv = CommRequest::<u64>::new(
        Some(RequestProc::Any),
        Some(RequestProc::Process(1)),
        COMM_TAG,
        None,
        CommRequestType::Message(MType::MRecv),
        1000u32,
    );

    mailbox.insert_mail(req, handle());
    assert!(mailbox.pop_matching_mail(&req_recv).is_some());
}

#[test]
fn box_insert_get_any_to_proc() {
    let mut mailbox = Mailbox::new();
    let req = CommRequest::<u64>::new(
        Some(RequestProc::Process(0)),
        Some(RequestProc::Any),
        COMM_TAG,
        Some(5u64),
        CommRequestType::Message(MType::MSend),
        1000u32,
    );

    let req_recv = CommRequest::<u64>::new(
        Some(RequestProc::Process(0)),
        Some(RequestProc::Process(1)),
        COMM_TAG,
        None,
        CommRequestType::Message(MType::MRecv),
        1000u32,
    );

    mailbox.insert_mail(req, handle());
    assert!(mailbox.pop_matching_mail(&req_recv).is_some());
}

#[test]
fn box_insert_get_any_to_any() {
    let mut mailbox = Mailbox::new();
    let req = CommRequest::<u64>::new(
        Some(RequestProc::Process(0)),
        Some(RequestProc::Any),
        COMM_TAG,
        Some(5u64),
        CommRequestType::Message(MType::MSend),
        1000u32,
    );

    let req_recv = CommRequest::<u64>::new(
        Some(RequestProc::Any),
        Some(RequestProc::Process(1)),
        COMM_TAG,
        None,
        CommRequestType::Message(MType::MRecv),
        1000u32,
    );

    mailbox.insert_mail(req, handle());
    assert!(mailbox.pop_matching_mail(&req_recv).is_some());
}

#[test]
fn box_proc_2_recv_any() {
    let mut mailbox = Mailbox::new();
    let req = CommRequest::<u64>::new(
        Some(RequestProc::Process(0)),
        Some(RequestProc::Process(2)),
        COMM_TAG,
        Some(5u64),
        CommRequestType::Message(MType::MSend),
        1000u32,
    );

    let req_recv = CommRequest::<u64>::new(
        Some(RequestProc::Any),
        Some(RequestProc::Process(1)),
        COMM_TAG,
        None,
        CommRequestType::Message(MType::MRecv),
        1000u32,
    );

    mailbox.insert_mail(req, handle());
    assert!(mailbox.pop_matching_mail(&req_recv).is_none());
}

#[test]
fn box_inorder() {
    let mut mailbox = Mailbox::new();
    let req = CommRequest::<u64>::new(
        Some(RequestProc::Process(0)),
        Some(RequestProc::Process(1)),
        COMM_TAG,
        Some(5u64),
        CommRequestType::Message(MType::MSend),
        1000u32,
    );

    let req_1 = CommRequest::<u64>::new(
        Some(RequestProc::Process(0)),
        Some(RequestProc::Any),
        COMM_TAG,
        Some(5u64),
        CommRequestType::Message(MType::MSend),
        1000u32,
    );

    let req_recv = CommRequest::<u64>::new(
        Some(RequestProc::Any),
        Some(RequestProc::Process(1)),
        COMM_TAG,
        None,
        CommRequestType::Message(MType::MRecv),
        1000u32,
    );

    mailbox.insert_mail(req, handle());
    mailbox.insert_mail(req_1, handle());

    let rep = mailbox.pop_matching_mail(&req_recv);
    assert!(rep.is_some());
    assert_eq!(rep.unwrap().0.id, 0);
}

#[test]
fn box_inorder_multiple() {
    let mut mailbox = Mailbox::new();
    let req = CommRequest::<u64>::new(
        Some(RequestProc::Process(0)),
        Some(RequestProc::Process(1)),
        COMM_TAG,
        Some(5u64),
        CommRequestType::Message(MType::MSend),
        1000u32,
    );

    let req_1 = CommRequest::<u64>::new(
        Some(RequestProc::Process(0)),
        Some(RequestProc::Any),
        COMM_TAG,
        Some(5u64),
        CommRequestType::Message(MType::MSend),
        1000u32,
    );

    let req_recv = CommRequest::<u64>::new(
        Some(RequestProc::Any),
        Some(RequestProc::Process(1)),
        COMM_TAG,
        None,
        CommRequestType::Message(MType::MRecv),
        1000u32,
    );

    mailbox.insert_mail(req, handle());
    mailbox.insert_mail(req_1, handle());

    let rep = mailbox.pop_matching_mail(&req_recv);
    assert!(rep.is_some());
    assert_eq!(rep.unwrap().0.id, 0);

    let rep = mailbox.pop_matching_mail(&req_recv);
    assert!(rep.is_some());
    assert_eq!(rep.unwrap().0.id, 1);

    assert!(mailbox.pop_matching_mail(&req_recv).is_none());
}

#[test]
fn box_recv_before_send() {
    let mut mailbox = Mailbox::new();
    let req = CommRequest::<u64>::new(
        Some(RequestProc::Process(0)),
        Some(RequestProc::Process(1)),
        COMM_TAG,
        Some(5u64),
        CommRequestType::Message(MType::MSend),
        1000u32,
    );

    let req_recv = CommRequest::<u64>::new(
        Some(RequestProc::Any),
        Some(RequestProc::Process(1)),
        COMM_TAG,
        None,
        CommRequestType::Message(MType::MRecv),
        1000u32,
    );

    mailbox.insert_mail(req_recv, handle());
    let rep = mailbox.pop_matching_mail(&req);
    assert!(rep.is_some());
    assert_eq!(rep.unwrap().0.id, 0);
    assert!(mailbox.pop_matching_mail(&req).is_none());
}

#[test]
fn box_popped_handle_is_the_inserted_one() {
    let mut mailbox = Mailbox::new();
    let req = CommRequest::<u64>::new(
        Some(RequestProc::Process(0)),
        Some(RequestProc::Process(1)),
        COMM_TAG,
        Some(7u64),
        CommRequestType::Message(MType::MSend),
        1000u32,
    );
    let req_recv = CommRequest::<u64>::new(
        Some(RequestProc::Any),
        Some(RequestProc::Process(1)),
        COMM_TAG,
        None,
        CommRequestType::Message(MType::MRecv),
        1000u32,
    );
    mailbox.insert_mail(req, 77u32);
    let (mail, conn) = mailbox.pop_matching_mail(&req_recv).unwrap();
    assert_eq!(conn, 77u32);
    assert_eq!(mail.req.data, Some(7u64));
    assert_eq!(mail.req.tag, COMM_TAG);
}

#[test]
fn box_send_before_recv_same_match_as_reversed() {
    // the same pair of requests matches whichever arrives first
    let send = CommRequest::<u64>::new(
        Some(RequestProc::Process(0)),
        Some(RequestProc::Process(1)),
        COMM_TAG,
        Some(5u64),
        CommRequestType::Message(MType::MSend),
        1000u32,
    );
    let recv = CommRequest::<u64>::new(
        Some(RequestProc::Any),
        Some(RequestProc::Process(1)),
        COMM_TAG,
        None,
        CommRequestType::Message(MType::MRecv),
        1000u32,
    );

    let mut first_send = Mailbox::new();
    first_send.insert_mail(send.clone(), 0u32);
    let got_recv_side = first_send.pop_matching_mail(&recv).is_some();

    let mut first_recv = Mailbox::new();
    first_recv.insert_mail(recv, 0u32);
    let got_send_side = first_recv.pop_matching_mail(&send).is_some();

    assert!(got_recv_side);
    assert!(got_send_side);
    assert_eq!(got_recv_side, got_send_side);
}

#[test]
fn box_tag_mismatch_never_matches() {
    let mut mailbox = Mailbox::new();
    let req = CommRequest::<u64>::new(
        Some(RequestProc::Process(0)),
        Some(RequestProc::Process(1)),
        COMM_TAG,
        Some(5u64),
        CommRequestType::Message(MType::MSend),
        1000u32,
    );
    let req_recv = CommRequest::<u64>::new(
        Some(RequestProc::Any),
        Some(RequestProc::Process(1)),
        COMM_TAG + 1,
        None,
        CommRequestType::Message(MType::MRecv),
        1000u32,
    );
    mailbox.insert_mail(req, handle());
    assert!(mailbox.pop_matching_mail(&req_recv).is_none());
}

#[test]
fn box_walk_skips_older_nonmatching_recv() {
    // an older receive from the wrong source must not block a younger
    // one from the right source
    let mut mailbox = Mailbox::new();
    let recv_wrong_src = CommRequest::<u64>::new(
        Some(RequestProc::Process(5)),
        Some(RequestProc::Process(1)),
        COMM_TAG,
        None,
        CommRequestType::Message(MType::MRecv),
        1000u32,
    );
    let recv_right_src = CommRequest::<u64>::new(
        Some(RequestProc::Process(0)),
        Some(RequestProc::Process(1)),
        COMM_TAG,
        None,
        CommRequestType::Message(MType::MRecv),
        1000u32,
    );
    let send = CommRequest::<u64>::new(
        Some(RequestProc::Process(0)),
        Some(RequestProc::Process(1)),
        COMM_TAG,
        Some(5u64),
        CommRequestType::Message(MType::MSend),
        1000u32,
    );
    mailbox.insert_mail(recv_wrong_src, 30u32);
    mailbox.insert_mail(recv_right_src, 31u32);
    let rep = mailbox.pop_matching_mail(&send);
    assert!(rep.is_some());
    let (mail, conn) = rep.unwrap();
    assert_eq!(mail.id, 1);
    assert_eq!(conn, 31u32);
    // the wrong-source receive is still pending, not consumed
    assert!(mailbox.pop_matching_mail(&send).is_none());
}

#[test]
fn box_oldest_of_specific_and_wildcard_recvs_wins() {
    // a send with a pinned destination must take the oldest of the
    // wildcard and the specific queued receives
    let mut mailbox = Mailbox::new();
    let recv_any = CommRequest::<u64>::new(
        Some(RequestProc::Any),
        Some(RequestProc::Process(1)),
        COMM_TAG,
        None,
        CommRequestType::Message(MType::MRecv),
        1000u32,
    );
    let recv_specific = CommRequest::<u64>::new(
        Some(RequestProc::Process(0)),
        Some(RequestProc::Process(1)),
        COMM_TAG,
        None,
        CommRequestType::Message(MType::MRecv),
        1000u32,
    );
    let send = CommRequest::<u64>::new(
        Some(RequestProc::Process(0)),
        Some(RequestProc::Process(1)),
        COMM_TAG,
        Some(9u64),
        CommRequestType::Message(MType::MSend),
        1000u32,
    );
    mailbox.insert_mail(recv_any, 40u32);
    mailbox.insert_mail(recv_specific, 41u32);
    let first = mailbox.pop_matching_mail(&send).unwrap();
    assert_eq!(first.0.id, 0);
    assert_eq!(first.1, 40u32);
    let second = mailbox.pop_matching_mail(&send).unwrap();
    assert_eq!(second.0.id, 1);
    assert_eq!(second.1, 41u32);
    assert!(mailbox.pop_matching_mail(&send).is_none());
}
