use crowd_core::ids::derive_agent_id;
use crowd_core::rng::{Purpose, StableRng};

#[test]
fn different_purposes_produce_independent_streams() {
    let id = derive_agent_id(7, 0, 0, 3);
    let radius = StableRng::for_agent(7, id, Purpose::Radius).next_u64();
    let speed = StableRng::for_agent(7, id, Purpose::PreferredSpeed).next_u64();
    assert_ne!(radius, speed);
}

#[test]
fn range_u32_stays_within_bounds() {
    let mut rng = StableRng::from_seed(11);
    for _ in 0..10_000 {
        let v = rng.range_u32(3, 9);
        assert!((3..9).contains(&v), "out of range: {v}");
    }
}

#[test]
fn same_seed_gives_the_same_stream() {
    let mut a = StableRng::from_seed(123);
    let mut b = StableRng::from_seed(123);
    for _ in 0..100 {
        assert_eq!(a.next_u64(), b.next_u64());
    }
}

#[test]
fn unit_numerator_has_twenty_four_bits() {
    let mut rng = StableRng::from_seed(1);
    for _ in 0..10_000 {
        assert!(rng.next_unit_numerator() < (1 << 24));
    }
}

#[test]
fn every_purpose_has_its_own_stream() {
    let id = derive_agent_id(7, 0, 0, 3);
    let purposes = [
        Purpose::Radius,
        Purpose::PreferredSpeed,
        Purpose::SpawnPosition,
    ];
    let values: Vec<u64> = purposes
        .iter()
        .map(|p| StableRng::for_agent(7, id, *p).next_u64())
        .collect();
    for i in 0..values.len() {
        for j in (i + 1)..values.len() {
            assert_ne!(values[i], values[j]);
        }
    }
}
