use signet::channel::Channel;

#[test]
fn channel_is_deterministic() {
    let mut a = Channel::new(7, 40);
    let mut b = Channel::new(7, 40);
    for _ in 0..100 {
        assert_eq!(a.delivers(), b.delivers());
    }
}

fn step(state: u64) -> u64 {
    state
        .wrapping_mul(6364136223846793005)
        .wrapping_add(1442695040888963407)
}

#[test]
fn channel_follows_its_generator() {
    let mut c = Channel::new(0xC0FFEE, 30);
    let mut state = 0xC0FFEEu64;
    for _ in 0..200 {
        state = step(state);
        assert_eq!(c.delivers(), (state >> 33) % 100 >= 30);
    }
}

#[test]
fn lossless_and_total_loss_channels() {
    let mut open = Channel::new(1, 0);
    let mut dead = Channel::new(1, 100);
    for _ in 0..100 {
        assert!(open.delivers());
        assert!(!dead.delivers());
    }
}

#[test]
fn loss_rate_is_roughly_what_was_asked() {
    let mut c = Channel::new(42, 30);
    let delivered = (0..10_000).filter(|_| c.delivers()).count();
    assert!((6_500..7_500).contains(&delivered), "delivered {delivered}");
}

#[test]
fn first_draw_from_seed_zero() {
    // state = 1442695040888963407; its top 31 bits are 167951807, which is
    // 7 modulo 100.
    let mut c = Channel::new(0, 7);
    assert!(c.delivers());
    let mut d = Channel::new(0, 8);
    assert!(!d.delivers());
}
