use ai::random::{Random, RandomImpl};

#[test]
fn draws_are_below_the_limit() {
    let mut random = RandomImpl::create(5761567);
    for limit in [1, 2, 3, 10, 1000, u64::MAX] {
        for _ in 0..100 {
            assert!(random.next_modulo(limit) < limit);
        }
    }
}

#[test]
fn a_seed_sets_the_stream() {
    let mut first = RandomImpl::create(42);
    let mut second = RandomImpl::create(42);
    for _ in 0..100 {
        assert_eq!(first.next_modulo(u64::MAX), second.next_modulo(u64::MAX));
    }
}

#[test]
fn seeds_give_streams_of_their_own() {
    let mut first = RandomImpl::create(1);
    let mut second = RandomImpl::create(2);
    let first_draws: Vec<u64> = (0..8).map(|_| first.next_modulo(u64::MAX)).collect();
    let second_draws: Vec<u64> = (0..8).map(|_| second.next_modulo(u64::MAX)).collect();
    assert_ne!(first_draws, second_draws);
}

#[test]
fn a_stream_moves_on() {
    let mut random = RandomImpl::create(7);
    let draws: Vec<u64> = (0..16).map(|_| random.next_modulo(u64::MAX)).collect();
    assert!(draws.iter().any(|&draw| draw != draws[0]));
}

#[test]
fn children_are_seeded_from_the_parent() {
    let mut parent = RandomImpl::create(99);
    let mut same_parent = RandomImpl::create(99);
    let mut child = parent.new_child();
    let mut same_child = same_parent.new_child();
    let mut sibling = parent.new_child();
    let child_draws: Vec<u64> = (0..8).map(|_| child.next_modulo(u64::MAX)).collect();
    let same_draws: Vec<u64> = (0..8).map(|_| same_child.next_modulo(u64::MAX)).collect();
    let sibling_draws: Vec<u64> = (0..8).map(|_| sibling.next_modulo(u64::MAX)).collect();
    assert_eq!(child_draws, same_draws);
    assert_ne!(child_draws, sibling_draws);
    // Making a child draws from the parent.
    assert_ne!(parent.next_modulo(u64::MAX), RandomImpl::create(99).next_modulo(u64::MAX));
}
