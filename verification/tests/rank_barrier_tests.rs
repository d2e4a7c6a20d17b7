use mpirs::barrier::BarrierGroup;
use mpirs::rank::RankTable;

#[test]
fn rank_assigned_in_spawn_order() {
    let mut t = RankTable::new();
    assert!(t.register(900));
    assert!(t.register(901));
    assert!(t.register(902));
    assert_eq!(t.rank_of(900), Some(0));
    assert_eq!(t.rank_of(901), Some(1));
    assert_eq!(t.rank_of(902), Some(2));
    assert_eq!(t.rank_of(903), None);
    assert_eq!(t.num_procs(), 3);
}

#[test]
fn rank_stable_across_queries() {
    let mut t = RankTable::new();
    assert!(t.register(10));
    assert!(t.register(20));
    let first = t.rank_of(20);
    let second = t.rank_of(20);
    assert_eq!(first, Some(1));
    assert_eq!(first, second);
    // the count never changes either, whatever is asked in between
    assert_eq!(t.num_procs(), 2);
    assert_eq!(t.num_procs(), 2);
}

#[test]
fn rank_duplicate_pid_refused() {
    let mut t = RankTable::new();
    assert!(t.register(5));
    assert!(!t.register(5));
    assert_eq!(t.num_procs(), 1);
    assert_eq!(t.rank_of(5), Some(0));
}

#[test]
fn barrier_releases_exactly_at_group_size() {
    let mut b: BarrierGroup<u32> = BarrierGroup::new(3);
    assert_eq!(b.arrive(1), None);
    assert_eq!(b.arrive(2), None);
    assert_eq!(b.arrive(3), Some(vec![1, 2, 3]));
    // the set cleared: a fresh cycle begins
    assert_eq!(b.arrive(4), None);
    assert_eq!(b.arrive(5), None);
    assert_eq!(b.arrive(6), Some(vec![4, 5, 6]));
}

#[test]
fn barrier_of_one_releases_immediately() {
    let mut b: BarrierGroup<u32> = BarrierGroup::new(1);
    assert_eq!(b.arrive(9), Some(vec![9]));
    assert_eq!(b.arrive(8), Some(vec![8]));
}
