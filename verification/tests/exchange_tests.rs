use concurrent_labs::exchange::{consume, consumer_next, producer, ConsumerNext};

#[test]
fn producer_publishes_pairwise_products() {
    let vec1 = vec![3, 4, 7, 6, 8, 10];
    let vec2 = vec![6, 5, 2, 4, 10, 4];
    assert_eq!(producer(&vec1, &vec2), vec![18, 20, 14, 24, 80, 40]);
}

#[test]
fn producer_publishes_nothing_for_different_lengths() {
    assert!(producer(&vec![1, 2], &vec![3]).is_empty());
}

#[test]
fn consumer_sums_what_it_finds() {
    let mut sum = 0;
    for v in producer(&vec![3, 4, 7, 6, 8, 10], &vec![6, 5, 2, 4, 10, 4]) {
        let mut slot = Some(v);
        consume(&mut sum, &mut slot);
        assert_eq!(slot, None);
    }
    assert_eq!(sum, 196);
    let mut empty = None;
    consume(&mut sum, &mut empty);
    assert_eq!(sum, 196);
}

#[test]
fn consumer_stops_once_finished() {
    assert!(matches!(consumer_next(true), ConsumerNext::Stop));
    assert!(matches!(consumer_next(false), ConsumerNext::Wait));
}
