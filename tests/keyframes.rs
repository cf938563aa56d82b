use yabuil::animation::{DynamicAnimationTarget, Keyframes, RawKeyframe};
use yabuil::curve::{ControlPoint, TimeBezierCurve};

fn target(key: u64, value: i32) -> DynamicAnimationTarget<i32> {
    DynamicAnimationTarget::new(format!("T{key}"), format!("targets::T{key}"), key, value)
}

fn raw(t: usize, targets: Vec<DynamicAnimationTarget<i32>>) -> RawKeyframe<i32> {
    RawKeyframe { timestamp_ms: t, time_scale: TimeBezierCurve::Linear, targets }
}

fn times(k: &Keyframes<i32>, c: usize) -> Vec<usize> {
    k.channels()[c].keyframes.iter().map(|kf| kf.timestamp_ms).collect()
}

fn values(k: &Keyframes<i32>, c: usize) -> Vec<i32> {
    k.channels()[c].keyframes.iter().map(|kf| kf.target.data).collect()
}

#[test]
fn flatten_groups_by_type() {
    const A: u64 = 7;
    const B: u64 = 9;
    let k = Keyframes::flatten_raw_keyframes(vec![
        raw(0, vec![target(A, 1)]),
        raw(50, vec![target(B, 2)]),
        raw(100, vec![target(A, 3)]),
    ]);
    assert_eq!(k.channels().len(), 2);
    let a = k.channels().iter().position(|c| c.type_id == A).unwrap();
    let b = k.channels().iter().position(|c| c.type_id == B).unwrap();
    assert_eq!(times(&k, a), vec![0, 100]);
    assert_eq!(values(&k, a), vec![1, 3]);
    assert_eq!(times(&k, b), vec![50]);
    assert_eq!(k.max_length(), 100);
}

#[test]
fn flatten_sorts_each_channel() {
    let k = Keyframes::flatten_raw_keyframes(vec![
        raw(300, vec![target(1, 3), target(2, 30)]),
        raw(100, vec![target(1, 1)]),
        raw(200, vec![target(1, 2), target(2, 20)]),
        raw(100, vec![target(1, 11)]),
    ]);
    assert_eq!(k.channels().len(), 2);
    assert_eq!(k.channels()[0].type_id, 1);
    assert_eq!(times(&k, 0), vec![100, 100, 200, 300]);
    assert_eq!(values(&k, 0), vec![1, 11, 2, 3]);
    assert_eq!(times(&k, 1), vec![200, 300]);
    assert_eq!(k.max_length(), 300);
    let total: usize = k.channels().iter().map(|c| c.keyframes.len()).sum();
    assert_eq!(total, 6);
    for c in k.channels() {
        assert!(c.keyframes.iter().all(|kf| kf.target.type_key == c.type_id));
    }
}

#[test]
fn flatten_of_nothing_is_empty() {
    let k = Keyframes::<i32>::flatten_raw_keyframes(vec![raw(40, vec![])]);
    assert_eq!(k.channels().len(), 0);
    assert_eq!(k.max_length(), 0);
}

#[test]
fn max_length_is_largest_last_time() {
    let k = Keyframes::flatten_raw_keyframes(vec![
        raw(10, vec![target(1, 0)]),
        raw(900, vec![target(2, 0)]),
        raw(400, vec![target(3, 0)]),
    ]);
    assert_eq!(k.max_length(), 900);
}

fn two_keyframes() -> Keyframes<i32> {
    Keyframes::flatten_raw_keyframes(vec![raw(0, vec![target(1, 10)]), raw(100, vec![target(1, 20)])])
}

#[test]
fn sample_halfway() {
    let k = two_keyframes();
    let s = k.channels()[0].sample(50);
    assert_eq!(s.index, 1);
    assert_eq!(s.previous, Some(0));
    assert_eq!(s.linear_progress, 32768);
    assert_eq!(s.progress, 32768);
    assert!(!s.reached_end);
}

#[test]
fn sample_at_the_end_and_beyond() {
    let k = two_keyframes();
    for t in [100usize, 101, 5000] {
        let s = k.channels()[0].sample(t);
        assert_eq!(s.index, 1);
        assert_eq!(s.previous, Some(0));
        assert_eq!(s.progress, 65536);
        assert!(s.reached_end);
    }
}

#[test]
fn sample_at_the_start() {
    // At t = 0 the first keyframe is already reached, so the interval to the
    // second one is sampled from its beginning.
    let k = two_keyframes();
    let s = k.channels()[0].sample(0);
    assert_eq!(s.index, 1);
    assert_eq!(s.previous, Some(0));
    assert_eq!(s.progress, 0);
}

#[test]
fn sample_before_the_first_keyframe() {
    let k = Keyframes::flatten_raw_keyframes(vec![raw(200, vec![target(1, 1)]), raw(400, vec![target(1, 2)])]);
    let s = k.channels()[0].sample(50);
    assert_eq!(s.index, 0);
    assert_eq!(s.previous, None);
    assert_eq!(s.linear_progress, 16384);
}

#[test]
fn sample_single_keyframe_at_zero_snaps() {
    let k = Keyframes::flatten_raw_keyframes(vec![raw(0, vec![target(1, 1)])]);
    let s = k.channels()[0].sample(0);
    assert_eq!(s.index, 0);
    assert_eq!(s.previous, None);
    assert_eq!(s.linear_progress, 65536);
    assert!(s.reached_end);
}

#[test]
fn sample_uses_the_current_keyframes_curve() {
    let curve = TimeBezierCurve::Quadratic(ControlPoint { x: 0, y: 65536 });
    let k = Keyframes::flatten_raw_keyframes(vec![
        raw(0, vec![target(1, 1)]),
        RawKeyframe { timestamp_ms: 100, time_scale: curve, targets: vec![target(1, 2)] },
    ]);
    let s = k.channels()[0].sample(50);
    assert_eq!(s.linear_progress, 32768);
    assert_eq!(s.progress, 49152);
}

#[test]
fn equal_time_stamps_snap() {
    let k = Keyframes::flatten_raw_keyframes(vec![raw(100, vec![target(1, 1)]), raw(100, vec![target(1, 2)])]);
    let s = k.channels()[0].sample(100);
    assert_eq!(s.index, 1);
    assert_eq!(s.linear_progress, 65536);
}

#[test]
fn target_accessors() {
    let t = target(4, 0);
    assert_eq!(t.name(), "T4");
    assert_eq!(t.target_type_path(), "targets::T4");
    assert_eq!(t.target_type_id(), 4);
    assert!(t.is_type(4));
    assert!(!t.is_type(5));
}
