use callandor::accum::AccumulationState;
use callandor::accum::HistoryBlend;

#[test]
fn blend_levels_scale_to_permille() {
    assert_eq!(HistoryBlend::Reset.permille(), 0);
    assert_eq!(HistoryBlend::Moving.permille(), 200);
    assert_eq!(HistoryBlend::Still.permille(), 1000);
}

#[test]
fn scripted_frames_give_the_expected_weights() {
    // frames: idle, move, idle, resize, idle
    let script = [
        (false, false, 1000u32),
        (true, false, 200),
        (false, false, 1000),
        (false, true, 0),
        (false, false, 1000),
    ];
    let mut st = AccumulationState::new();
    for (camera_moved, did_resize, expected) in script {
        let w = st.frame(camera_moved, did_resize);
        assert_eq!(w.permille(), expected);
        assert_eq!(st.history_weight, w);
    }
}

#[test]
fn resize_beats_camera_motion() {
    let mut st = AccumulationState::new();
    assert_eq!(st.frame(true, true), HistoryBlend::Reset);
}

#[test]
fn roles_alternate_over_idle_frames() {
    let mut st = AccumulationState::new();
    assert!(st.history_is_a);
    for k in 1..=10u32 {
        st.frame(false, false);
        assert_eq!(st.history_is_a, k % 2 == 0);
    }
}

#[test]
fn resize_pins_buffer_a_before_the_swap() {
    let mut st = AccumulationState::new();
    st.frame(false, false);
    assert!(!st.history_is_a);
    // the resize frame reads from buffer A again, then swaps to B
    st.frame(false, true);
    assert!(!st.history_is_a);
    assert_eq!(st.history_weight, HistoryBlend::Reset);
    // and alternation resumes from there
    st.frame(false, false);
    assert!(st.history_is_a);
}
