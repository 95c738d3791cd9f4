use liveterm::should_redraw;

#[test]
fn test_should_redraw_throttles_to_frame_rate() {
    // 20 frames per second: a redraw is due only after more than 50 ms
    assert!(!should_redraw(0, true));
    assert!(!should_redraw(50, true));
    assert!(should_redraw(51, true));
    assert!(should_redraw(10_000, true));
}

#[test]
fn test_should_redraw_never_on_redirected_sink() {
    // a non-interactive sink never gets mid-stream control sequences
    assert!(!should_redraw(51, false));
    assert!(!should_redraw(u64::MAX, false));
}
