use signet::airtime::{data_frames, message_len};

#[test]
fn tesla_fits_in_one_frame() {
    // 13B header + 7B body + 30B payload + 48B trailer = 98B.
    assert_eq!(message_len(30, 48), 98);
    assert_eq!(data_frames(30, 48, 237), 1);
    assert!(data_frames(30, 2420, 237) > 1);
}

#[test]
fn frame_counts_round_up() {
    assert_eq!(data_frames(30, 666, 237), 4);
    assert_eq!(data_frames(30, 2420, 237), 11);
    assert_eq!(data_frames(30, 7856, 237), 34);
    // Exactly one MTU is one frame; one byte more is two.
    assert_eq!(data_frames(0, 217, 237), 1);
    assert_eq!(data_frames(0, 218, 237), 2);
    assert_eq!(data_frames(0, 0, 1), 20);
}
