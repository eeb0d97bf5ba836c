use nulloc::rand::XorRand;

#[test]
fn xorshift_follows_its_three_rounds() {
    let mut rng = XorRand::new(1);
    // first = 1 ^ (1 << 13) = 8193; second = 8193 ^ (1 >> 7) = 8193;
    // result = 8193 ^ (8193 << 17) = 8193 ^ 1073872896.
    assert_eq!(rng.rand(), 8193 ^ (8193usize << 17));
    let mut zero = XorRand::new(0);
    assert_eq!(zero.rand(), 0);
    assert_eq!(zero.rand_range(3, 9), 3);
}

#[test]
fn rand_range_stays_in_range() {
    let mut rng = XorRand::new(12345);
    for _ in 0..1000 {
        let r = rng.rand_range(10, 17);
        assert!(10 <= r && r <= 17);
    }
    assert_eq!(rng.rand_range(4, 4), 4);
}
