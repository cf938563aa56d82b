use yabuil::animation::{
    DynamicAnimationTarget, Keyframes, LayoutAnimation, AnimationTrack, RawKeyframe,
};
use yabuil::curve::TimeBezierCurve;
use yabuil::playback::{InternalPlaybackState, LayoutAnimationPlaybackState, PlaybackState, Progress};

fn state(names: &[&str]) -> LayoutAnimationPlaybackState {
    LayoutAnimationPlaybackState::new(names.iter().map(|n| n.to_string()).collect())
}

fn target(key: u64, value: i32) -> DynamicAnimationTarget<i32> {
    DynamicAnimationTarget::new(format!("T{key}"), format!("targets::T{key}"), key, value)
}

fn raw(t: usize, targets: Vec<DynamicAnimationTarget<i32>>) -> RawKeyframe<i32> {
    RawKeyframe { timestamp_ms: t, time_scale: TimeBezierCurve::Linear, targets }
}

fn animation(kfs: Vec<RawKeyframe<i32>>) -> LayoutAnimation<i32> {
    LayoutAnimation {
        tracks: vec![AnimationTrack { node_path: vec![], keyframes: Keyframes::flatten_raw_keyframes(kfs) }],
    }
}

#[test]
fn new_state_is_stopped() {
    let s = state(&["open", "close", "open"]);
    assert_eq!(s.playback_state("open"), Some(PlaybackState::Stopped));
    assert_eq!(s.playback_state("close"), Some(PlaybackState::Stopped));
    assert_eq!(s.playback_state("missing"), None);
    assert!(!s.is_playing_any());
}

#[test]
fn play_starts_at_zero_forwards() {
    let mut s = state(&["open"]);
    assert!(s.play_animation("open"));
    assert_eq!(s.playback_state("open"), Some(PlaybackState::Playing));
    assert_eq!(
        s.internal_state("open"),
        Some(InternalPlaybackState::Playing { progress: Progress::At(0), is_reverse: false })
    );
    assert!(s.is_playing_any());
}

#[test]
fn unknown_names_fail() {
    let mut s = state(&["open"]);
    assert!(!s.play_animation("nope"));
    assert!(!s.stop_animation("nope"));
    assert!(!s.pause_animation("nope"));
    assert!(!s.resume_animation("nope"));
    assert!(!s.reverse_animation("nope"));
    assert!(!s.play_or_reverse_animation("nope"));
    assert_eq!(s.playback_state("open"), Some(PlaybackState::Stopped));
}

#[test]
fn pause_then_resume_restores_progress_and_direction() {
    let mut s = state(&["a"]);
    s.play_animation("a");
    s.update_animation("a", 40, &animation(vec![raw(0, vec![target(1, 0)]), raw(100, vec![target(1, 1)])]));
    s.reverse_animation("a");
    let before = s.internal_state("a");
    assert_eq!(before, Some(InternalPlaybackState::Playing { progress: Progress::At(40), is_reverse: true }));
    assert!(s.pause_animation("a"));
    assert_eq!(s.internal_state("a"), Some(InternalPlaybackState::Paused { progress: Progress::At(40), is_reverse: true }));
    assert!(s.resume_animation("a"));
    assert_eq!(s.internal_state("a"), before);
}

#[test]
fn noop_operations_succeed_without_effect() {
    let mut s = state(&["a"]);
    assert!(s.pause_animation("a"));
    assert!(s.resume_animation("a"));
    assert!(s.reverse_animation("a"));
    assert_eq!(s.internal_state("a"), Some(InternalPlaybackState::Stopped));
}

#[test]
fn reverse_always_flips() {
    let mut s = state(&["a"]);
    s.play_animation("a");
    s.reverse_animation("a");
    assert_eq!(s.internal_state("a"), Some(InternalPlaybackState::Playing { progress: Progress::At(0), is_reverse: true }));
    s.reverse_animation("a");
    assert_eq!(s.internal_state("a"), Some(InternalPlaybackState::Playing { progress: Progress::At(0), is_reverse: false }));
}

#[test]
fn stop_from_any_state() {
    let mut s = state(&["a"]);
    s.play_animation("a");
    s.pause_animation("a");
    assert!(s.stop_animation("a"));
    assert_eq!(s.playback_state("a"), Some(PlaybackState::Stopped));
}

#[test]
fn pause_and_resume_all() {
    let mut s = state(&["a", "b", "c"]);
    s.play_animation("a");
    s.play_animation("b");
    s.pause_all_animations();
    assert_eq!(s.playback_state("a"), Some(PlaybackState::Paused));
    assert_eq!(s.playback_state("b"), Some(PlaybackState::Paused));
    assert_eq!(s.playback_state("c"), Some(PlaybackState::Stopped));
    assert!(!s.is_playing_any());
    s.resume_all_animations();
    assert_eq!(s.playback_state("a"), Some(PlaybackState::Playing));
    assert_eq!(s.playback_state("b"), Some(PlaybackState::Playing));
    assert_eq!(s.playback_state("c"), Some(PlaybackState::Stopped));
}

#[test]
fn play_or_reverse_from_stopped_resolves_to_the_end() {
    let mut s = state(&["a"]);
    let anim = animation(vec![raw(0, vec![target(1, 0)]), raw(250, vec![target(1, 5), target(2, 7)])]);
    assert!(s.play_or_reverse_animation("a"));
    assert_eq!(
        s.internal_state("a"),
        Some(InternalPlaybackState::Playing { progress: Progress::FromEnd, is_reverse: true })
    );
    let frame = s.update_animation("a", 0, &anim).unwrap();
    assert_eq!(frame.progress, 250);
    assert!(!frame.finished);
    assert_eq!(anim.max_length(), 250);
    assert_eq!(
        s.internal_state("a"),
        Some(InternalPlaybackState::Playing { progress: Progress::At(250), is_reverse: true })
    );
    let frame = s.update_animation("a", 100, &anim).unwrap();
    assert_eq!(frame.progress, 150);
    assert!(!frame.finished);
    let frame = s.update_animation("a", 200, &anim).unwrap();
    assert_eq!(frame.progress, 0);
    assert!(frame.finished);
    assert_eq!(s.internal_state("a"), Some(InternalPlaybackState::Stopped));
}

#[test]
fn play_or_reverse_flips_a_running_animation() {
    let mut s = state(&["a"]);
    s.play_animation("a");
    s.play_or_reverse_animation("a");
    assert_eq!(s.internal_state("a"), Some(InternalPlaybackState::Playing { progress: Progress::At(0), is_reverse: true }));
}

#[test]
fn update_skips_animations_that_do_not_play() {
    let mut s = state(&["a"]);
    let anim = animation(vec![raw(100, vec![target(1, 0)])]);
    assert!(s.update_animation("a", 10, &anim).is_none());
    assert!(s.update_animation("zzz", 10, &anim).is_none());
}

#[test]
fn forward_animation_finishes_at_its_end() {
    let mut s = state(&["a"]);
    let anim = animation(vec![raw(0, vec![target(1, 0)]), raw(100, vec![target(1, 1)])]);
    s.play_animation("a");
    let f = s.update_animation("a", 60, &anim).unwrap();
    assert_eq!(f.progress, 60);
    assert!(!f.finished);
    assert_eq!(s.playback_state("a"), Some(PlaybackState::Playing));
    let f = s.update_animation("a", 60, &anim).unwrap();
    assert_eq!(f.progress, 120);
    assert!(f.finished);
    assert_eq!(s.playback_state("a"), Some(PlaybackState::Stopped));
}

#[test]
fn reverse_animation_finishes_at_zero() {
    let mut s = state(&["a"]);
    let anim = animation(vec![raw(0, vec![target(1, 0)]), raw(100, vec![target(1, 1)])]);
    s.play_animation("a");
    s.update_animation("a", 30, &anim);
    s.reverse_animation("a");
    let f = s.update_animation("a", 50, &anim).unwrap();
    assert_eq!(f.progress, 0);
    assert!(f.finished);
    assert_eq!(s.playback_state("a"), Some(PlaybackState::Stopped));
}
