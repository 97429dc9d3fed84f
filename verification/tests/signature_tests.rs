use hexwalk::signature::get_signature;

#[test]
fn signature_pads_small_counters() {
    assert_eq!(get_signature(0), "AntonMakesGames 000");
    assert_eq!(get_signature(7), "AntonMakesGames 007");
    assert_eq!(get_signature(42), "AntonMakesGames 042");
}

#[test]
fn signature_keeps_wide_counters() {
    assert_eq!(get_signature(123), "AntonMakesGames 123");
    assert_eq!(get_signature(1234), "AntonMakesGames 1234");
}
