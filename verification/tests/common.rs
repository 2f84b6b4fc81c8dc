use futures_ratelimit::common::free_slots_of;

#[test]
fn free_slots_of_counts_room_below_the_limit() {
    assert_eq!(free_slots_of(10, 0), 10);
    assert_eq!(free_slots_of(10, 3), 7);
    assert_eq!(free_slots_of(10, 10), 0);
    assert_eq!(free_slots_of(10, 25), 0);
    assert_eq!(free_slots_of(0, 0), 0);
}
