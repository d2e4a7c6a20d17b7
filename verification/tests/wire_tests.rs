use mpirs::collective::{place_segment, segments_in_bounds, total_count};
use mpirs::comm_request::{CommRequest, CommRequestType, ControlTy, Extract, RequestProc};
use mpirs::decimal::{format_decimal, parse_decimal};
use mpirs::mpi_request::MPIRequest;

#[test]
fn decimal_format_exact() {
    assert_eq!(format_decimal(0), b"0".to_vec());
    assert_eq!(format_decimal(7), b"7".to_vec());
    assert_eq!(format_decimal(31337), b"31337".to_vec());
    assert_eq!(format_decimal(1000), b"1000".to_vec());
}

#[test]
fn decimal_parse_exact() {
    assert_eq!(parse_decimal(&b"0".to_vec()), Some(0));
    assert_eq!(parse_decimal(&b"42".to_vec()), Some(42));
    assert_eq!(parse_decimal(&b"0042".to_vec()), Some(42));
    assert_eq!(parse_decimal(&b"31337".to_vec()), Some(31337));
}

#[test]
fn decimal_parse_refuses_junk() {
    assert_eq!(parse_decimal(&b"".to_vec()), None);
    assert_eq!(parse_decimal(&b"4a2".to_vec()), None);
    assert_eq!(parse_decimal(&b"-3".to_vec()), None);
    assert_eq!(parse_decimal(&b"99999999999999999999999".to_vec()), None);
}

#[test]
fn decimal_round_trip_on_values() {
    for n in [0usize, 1, 9, 10, 99, 12345, usize::MAX] {
        assert_eq!(parse_decimal(&format_decimal(n)), Some(n));
    }
}

#[test]
fn collective_total_count_sums() {
    assert_eq!(total_count(&vec![1, 2, 3]), Some(6));
    assert_eq!(total_count(&vec![]), Some(0));
    assert_eq!(total_count(&vec![usize::MAX, 1]), None);
}

#[test]
fn collective_segments_in_bounds_checks_each() {
    assert!(segments_in_bounds(&vec![2, 2], &vec![0, 2], 4));
    assert!(!segments_in_bounds(&vec![2, 3], &vec![0, 2], 4));
    assert!(!segments_in_bounds(&vec![2], &vec![0, 2], 4));
}

#[test]
fn collective_place_segment_lands_at_displacement() {
    let mut recv = vec![0u64; 6];
    place_segment(&mut recv, 2, vec![7u64, 8, 9]);
    assert_eq!(recv, vec![0, 0, 7, 8, 9, 0]);
    place_segment(&mut recv, 0, vec![1u64]);
    assert_eq!(recv, vec![1, 0, 7, 8, 9, 0]);
}

#[test]
fn comm_request_getters_and_setters() {
    let mut r: CommRequest<u64> = CommRequest::new(
        None,
        Some(RequestProc::Any),
        9,
        Some(3u64),
        CommRequestType::Control(ControlTy::Nop),
        77,
    );
    assert_eq!(r.src(), None);
    assert_eq!(r.dst(), Some(RequestProc::Any));
    assert_eq!(r.tag(), 9);
    assert_eq!(r.pid(), 77);
    assert!(r.is_dst_any());
    assert!(!r.is_src_any());
    assert!(r.is_request_control());
    assert!(!r.is_request_message());
    assert!(!r.is_send());
    assert!(!r.is_recv());
    r.set_src(RequestProc::Process(4));
    r.set_dest(RequestProc::Process(5));
    assert_eq!(r.src(), Some(RequestProc::Process(4)));
    assert_eq!(r.dst(), Some(RequestProc::Process(5)));
    assert_eq!(r.data(), Some(3u64));
    assert_eq!(Extract::data(&r), Some(3u64));
}

#[test]
fn mpi_request_records_endpoints() {
    let r = MPIRequest::new(1, 2, 42);
    assert_eq!(r.src, Some(1));
    assert_eq!(r.dest, Some(2));
    assert_eq!(r.tag, Some(42));
}
