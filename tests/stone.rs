use reversi::stone::Stone;

#[test]
fn opposite_is_an_involution() {
    assert_eq!(Stone::Black.opposite(), Stone::White);
    assert_eq!(Stone::White.opposite(), Stone::Black);
    assert_eq!(Stone::Black.opposite().opposite(), Stone::Black);
    assert_eq!(Stone::White.opposite().opposite(), Stone::White);
}
