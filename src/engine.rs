//! One animation pass over a playing node: advance its animations, sample
//! their channels, and say which nodes the host must interpolate.
use vstd::prelude::*;
use crate::animation::{ChannelSample, LayoutAnimation, animation_length, sample_spec, samples_spec};
use crate::builtin::{
    BuiltinTarget, builtin_applied, builtin_in_range, builtin_type_key, lemma_same_key_same_builtin,
};
use crate::layout::views;
use crate::playback::{AnimationFrame, InternalPlaybackState, advanced, stepped};
use crate::scene::{LiveNode, Scene, descendant};

verus! {

/// A named animation of a layout.
pub struct NamedAnimation<V> {
    pub name: String,
    pub animation: LayoutAnimation<V>,
}

/// One call of a target's interpolation that the host makes this pass.
#[derive(Clone, Copy, Debug, PartialEq, Eq, Structural)]
pub struct InterpolationCall {
    /// The node to animate.
    pub target: usize,
    /// Which animation, track and channel the values come from.
    pub animation: usize,
    pub track: usize,
    pub channel: usize,
    /// The animation's position on its time line this pass, in milliseconds.
    pub time_ms: usize,
    pub sample: ChannelSample,
}

/// `call` interpolates a channel that exists, at its sample for the call's
/// time, on the node that the track's path names below `node`.
pub open spec fn call_ok<V>(
    nodes: Seq<LiveNode>,
    node: usize,
    animations: Seq<NamedAnimation<V>>,
    call: InterpolationCall,
) -> bool {
    &&& call.animation < animations.len()
    &&& call.track < animations[call.animation as int].animation.tracks@.len()
    &&& {
        let track = animations[call.animation as int].animation.tracks@[call.track as int];
        &&& descendant(nodes, node, views(track.node_path@)) == Some(call.target)
        &&& call.channel < track.keyframes.spec_channels().len()
        &&& sample_spec(track.keyframes.spec_channels()[call.channel as int].keyframes@, call.time_ms as int, call.sample)
        &&& (call.sample.previous matches Some(j) ==> track.keyframes.spec_channels()[call.channel as int].keyframes@[j as int].target.type_key
            == track.keyframes.spec_channels()[call.channel as int].keyframes@[call.sample.index as int].target.type_key)
    }
}

/// `x` comes before `y` in animation, track and channel order.
pub open spec fn call_before(x: InterpolationCall, y: InterpolationCall) -> bool {
    x.animation < y.animation || (x.animation == y.animation && (x.track < y.track || (x.track == y.track
        && x.channel < y.channel)))
}

/// The calls are in animation, track and channel order, with no channel twice.
pub open spec fn calls_ordered(calls: Seq<InterpolationCall>) -> bool {
    forall|p: int, q: int| 0 <= p < q < calls.len() ==> call_before(#[trigger] calls[p], #[trigger] calls[q])
}

/// Some call of `calls` interpolates channel `c` of track `k` of animation `a`.
pub open spec fn has_call(calls: Seq<InterpolationCall>, a: int, k: int, c: int) -> bool {
    exists|q: int|
        0 <= q < calls.len() && (#[trigger] calls[q]).animation == a && calls[q].track == k && calls[q].channel == c
}

proof fn lemma_has_call_push(calls: Seq<InterpolationCall>, x: InterpolationCall, a: int, k: int, c: int)
    requires
        has_call(calls, a, k, c) || (x.animation == a && x.track == k && x.channel == c),
    ensures
        has_call(calls.push(x), a, k, c),
{
    if has_call(calls, a, k, c) {
        let q = choose|q: int|
            0 <= q < calls.len() && (#[trigger] calls[q]).animation == a && calls[q].track == k && calls[q].channel == c;
        assert(calls.push(x)[q] == calls[q]);
    } else {
        assert(calls.push(x)[calls.len() as int] == x);
    }
}

/// The animations' names are distinct: they are the keys of a map.
pub open spec fn distinct_names<V>(animations: Seq<NamedAnimation<V>>) -> bool {
    forall|a: int, b: int|
        0 <= a < b < animations.len() ==> (#[trigger] animations[a]).name@ != (#[trigger] animations[b]).name@
}

/// Animation `a` was playing on the node before this pass.
pub open spec fn was_playing<V>(
    before: Map<Seq<char>, InternalPlaybackState>,
    animations: Seq<NamedAnimation<V>>,
    a: int,
) -> bool {
    before.contains_key(animations[a].name@) && before[animations[a].name@] is Playing
}

/// The time line position of animation `a` after this pass.
pub open spec fn progress_after<V>(
    before: Map<Seq<char>, InternalPlaybackState>,
    animations: Seq<NamedAnimation<V>>,
    a: int,
    delta: int,
) -> int {
    match before[animations[a].name@] {
        InternalPlaybackState::Playing { progress, is_reverse } =>
            advanced(progress, is_reverse, delta, animation_length(animations[a].animation.tracks@)),
        _ => 0,
    }
}

/// The node's playback states after every animation of `animations` took one step.
pub open spec fn all_stepped<V>(
    before: Map<Seq<char>, InternalPlaybackState>,
    after: Map<Seq<char>, InternalPlaybackState>,
    animations: Seq<NamedAnimation<V>>,
    n: int,
    delta: int,
) -> bool {
    &&& after.dom() == before.dom()
    &&& forall|b: int| 0 <= b < n && before.contains_key((#[trigger] animations[b]).name@) ==>
        after[animations[b].name@] == stepped(before[animations[b].name@], animations[b].animation, delta)
    &&& forall|key: Seq<char>| #[trigger] before.contains_key(key)
        && (forall|b: int| 0 <= b < n ==> (#[trigger] animations[b]).name@ != key) ==> after[key] == before[key]
}

/// Advances every playing animation of `node` by `delta_ms` milliseconds and
/// lists the interpolation calls of this pass: one per channel of each track
/// whose node exists, in animation, track and channel order. Tracks whose
/// path names no node are skipped.
pub fn update_node_animations<V>(
    scene: &mut Scene,
    node: usize,
    delta_ms: usize,
    animations: &Vec<NamedAnimation<V>>,
) -> (r: Vec<InterpolationCall>)
    requires
        old(scene).well_formed(),
        node < old(scene)@.len(),
        forall|a: int| 0 <= a < animations@.len() ==> (#[trigger] animations@[a]).animation.well_formed(),
        distinct_names(animations@),
    ensures
        final(scene).well_formed(),
        final(scene)@.len() == old(scene)@.len(),
        forall|i: int| 0 <= i < old(scene)@.len() && i != node ==> #[trigger] final(scene)@[i] == old(scene)@[i],
        final(scene)@[node as int] == (LiveNode { playback: final(scene)@[node as int].playback, ..old(scene)@[node as int] }),
        old(scene)@[node as int].playback is None ==> final(scene)@[node as int].playback is None && r@.len() == 0,
        old(scene)@[node as int].playback matches Some(p0) ==> {
            &&& final(scene)@[node as int].playback matches Some(p1)
            &&& all_stepped(p0@, p1@, animations@, animations@.len() as int, delta_ms as int)
            &&& forall|q: int| 0 <= q < r@.len() ==> {
                &&& call_ok(final(scene)@, node, animations@, #[trigger] r@[q])
                &&& was_playing(p0@, animations@, r@[q].animation as int)
                &&& r@[q].time_ms == progress_after(p0@, animations@, r@[q].animation as int, delta_ms as int)
            }
            &&& calls_ordered(r@)
            &&& forall|a: int, k: int, c: int|
                0 <= a < animations@.len() && 0 <= k < animations@[a].animation.tracks@.len()
                    && 0 <= c < animations@[a].animation.tracks@[k].keyframes.spec_channels().len()
                    && was_playing(p0@, animations@, a)
                    && descendant(final(scene)@, node, views(animations@[a].animation.tracks@[k].node_path@)) is Some
                    ==> #[trigger] has_call(r@, a, k, c)
        },
{
    let mut calls: Vec<InterpolationCall> = Vec::new();
    let taken = scene.take_playback(node);
    let mut playback = match taken {
        Some(p) => p,
        None => {
            scene.restore_playback(node, None);
            return calls;
        },
    };
    let ghost s0 = old(scene)@;
    let ghost p0 = playback@;
    let mut frames: Vec<Option<AnimationFrame>> = Vec::new();
    let mut a: usize = 0;
    while a < animations.len()
        invariant
            playback.well_formed(),
            a <= animations@.len(),
            frames@.len() == a,
            distinct_names(animations@),
            forall|b: int| 0 <= b < animations@.len() ==> (#[trigger] animations@[b]).animation.well_formed(),
            all_stepped(p0, playback@, animations@, a as int, delta_ms as int),
            forall|b: int| 0 <= b < a ==> ((#[trigger] frames@[b]) is Some <==> was_playing(p0, animations@, b)),
            forall|b: int| 0 <= b < a ==> (#[trigger] frames@[b] matches Some(f) ==> {
                &&& samples_spec(animations@[b].animation.tracks@, f.progress as int, f.samples@)
                &&& f.progress == progress_after(p0, animations@, b, delta_ms as int)
            }),
        decreases animations@.len() - a,
    {
        let entry = &animations[a];
        assert(entry.animation.well_formed());
        let ghost before = playback@;
        let ghost name = entry.name@;
        proof {
            assert forall|b: int| 0 <= b < a implies (#[trigger] animations@[b]).name@ != name by {
                assert(animations@[b].name@ != animations@[a as int].name@);
            };
            if p0.contains_key(name) {
                assert(before[name] == p0[name]);
            }
        }
        let f = playback.update_animation(entry.name.as_str(), delta_ms, &entry.animation);
        proof {
            assert(playback@.dom() =~= p0.dom());
            assert forall|b: int| 0 <= b < a + 1 && p0.contains_key((#[trigger] animations@[b]).name@) implies
                playback@[animations@[b].name@] == stepped(p0[animations@[b].name@], animations@[b].animation, delta_ms as int) by {
                if b < a {
                    assert(animations@[b].name@ != name);
                }
            };
            assert forall|key: Seq<char>| #[trigger] p0.contains_key(key)
                && (forall|b: int| 0 <= b < a + 1 ==> (#[trigger] animations@[b]).name@ != key) implies playback@[key] == p0[key] by {
                assert(animations@[a as int].name@ != key);
            };
        }
        let ghost frames_before = frames@;
        frames.push(f);
        proof {
            assert forall|b: int| 0 <= b < a + 1 implies ((#[trigger] frames@[b]) is Some <==> was_playing(p0, animations@, b)) by {
                if b < a {
                    assert(frames@[b] == frames_before[b]);
                }
            };
            assert forall|b: int| 0 <= b < a + 1 implies (#[trigger] frames@[b] matches Some(f) ==> {
                &&& samples_spec(animations@[b].animation.tracks@, f.progress as int, f.samples@)
                &&& f.progress == progress_after(p0, animations@, b, delta_ms as int)
            }) by {
                if b < a {
                    assert(frames@[b] == frames_before[b]);
                }
            };
        }
        a = a + 1;
    }
    scene.restore_playback(node, Some(playback));
    assert(scene@[node as int] == (LiveNode { playback: scene@[node as int].playback, ..s0[node as int] }));
    let mut a: usize = 0;
    while a < animations.len()
        invariant
            scene.well_formed(),
            node < scene@.len(),
            a <= animations@.len(),
            frames@.len() == animations@.len(),
            forall|b: int| 0 <= b < animations@.len() ==> (#[trigger] animations@[b]).animation.well_formed(),
            forall|b: int| 0 <= b < animations@.len() ==> ((#[trigger] frames@[b]) is Some <==> was_playing(p0, animations@, b)),
            forall|b: int| 0 <= b < animations@.len() ==> (#[trigger] frames@[b] matches Some(f) ==> {
                &&& samples_spec(animations@[b].animation.tracks@, f.progress as int, f.samples@)
                &&& f.progress == progress_after(p0, animations@, b, delta_ms as int)
            }),
            forall|q: int| 0 <= q < calls@.len() ==> {
                &&& call_ok(scene@, node, animations@, #[trigger] calls@[q])
                &&& was_playing(p0, animations@, calls@[q].animation as int)
                &&& calls@[q].time_ms == progress_after(p0, animations@, calls@[q].animation as int, delta_ms as int)
            },
            calls_ordered(calls@),
            forall|q: int| 0 <= q < calls@.len() ==> (#[trigger] calls@[q]).animation < a,
            forall|b: int, k: int, c: int|
                0 <= b < a && 0 <= k < animations@[b].animation.tracks@.len()
                    && 0 <= c < animations@[b].animation.tracks@[k].keyframes.spec_channels().len()
                    && was_playing(p0, animations@, b)
                    && descendant(scene@, node, views(animations@[b].animation.tracks@[k].node_path@)) is Some
                    ==> #[trigger] has_call(calls@, b, k, c),
        decreases animations@.len() - a,
    {
        match &frames[a] {
            None => {},
            Some(frame) => {
                let tracks = &animations[a].animation.tracks;
                assert(animations@[a as int].animation.well_formed());
                let mut k: usize = 0;
                while k < tracks.len()
                    invariant
                        scene.well_formed(),
                        node < scene@.len(),
                        a < animations@.len(),
                        frames@[a as int] == Some(*frame),
                        tracks@ == animations@[a as int].animation.tracks@,
                        animations@[a as int].animation.well_formed(),
                        samples_spec(tracks@, frame.progress as int, frame.samples@),
                        was_playing(p0, animations@, a as int),
                        frame.progress == progress_after(p0, animations@, a as int, delta_ms as int),
                        k <= tracks@.len(),
                        forall|q: int| 0 <= q < calls@.len() ==> {
                            &&& call_ok(scene@, node, animations@, #[trigger] calls@[q])
                            &&& was_playing(p0, animations@, calls@[q].animation as int)
                            &&& calls@[q].time_ms == progress_after(p0, animations@, calls@[q].animation as int, delta_ms as int)
                        },
                        forall|b: int, k2: int, c: int|
                            0 <= b < a && 0 <= k2 < animations@[b].animation.tracks@.len()
                                && 0 <= c < animations@[b].animation.tracks@[k2].keyframes.spec_channels().len()
                                && was_playing(p0, animations@, b)
                                && descendant(scene@, node, views(animations@[b].animation.tracks@[k2].node_path@)) is Some
                                ==> #[trigger] has_call(calls@, b, k2, c),
                        calls_ordered(calls@),
                        forall|q: int| 0 <= q < calls@.len() ==> (#[trigger] calls@[q]).animation < a
                            || (calls@[q].animation == a && calls@[q].track < k),
                        forall|k2: int, c: int|
                            0 <= k2 < k && 0 <= c < tracks@[k2].keyframes.spec_channels().len()
                                && descendant(scene@, node, views(tracks@[k2].node_path@)) is Some
                                ==> #[trigger] has_call(calls@, a as int, k2, c),
                    decreases tracks@.len() - k,
                {
                    let track = &tracks[k];
                    let found = scene.try_get_descendant_id(node, &track.node_path);
                    if let Some(target) = found {
                        let row = &frame.samples[k];
                        let chans = track.keyframes.channels();
                        assert(track.keyframes.well_formed());
                        let mut c: usize = 0;
                        while c < row.len()
                            invariant
                                scene.well_formed(),
                                a < animations@.len(),
                                k < tracks@.len(),
                                tracks@ == animations@[a as int].animation.tracks@,
                                *track == tracks@[k as int],
                                track.keyframes.well_formed(),
                                chans@ == track.keyframes.spec_channels(),
                                row@ == frame.samples@[k as int]@,
                                row@.len() == chans@.len(),
                                samples_spec(tracks@, frame.progress as int, frame.samples@),
                                was_playing(p0, animations@, a as int),
                                frame.progress == progress_after(p0, animations@, a as int, delta_ms as int),
                                descendant(scene@, node, views(track.node_path@)) == Some(target),
                                c <= row@.len(),
                                forall|q: int| 0 <= q < calls@.len() ==> {
                                    &&& call_ok(scene@, node, animations@, #[trigger] calls@[q])
                                    &&& was_playing(p0, animations@, calls@[q].animation as int)
                                    &&& calls@[q].time_ms == progress_after(p0, animations@, calls@[q].animation as int, delta_ms as int)
                                },
                                forall|b: int, k2: int, c2: int|
                                    0 <= b < a && 0 <= k2 < animations@[b].animation.tracks@.len()
                                        && 0 <= c2 < animations@[b].animation.tracks@[k2].keyframes.spec_channels().len()
                                        && was_playing(p0, animations@, b)
                                        && descendant(scene@, node, views(animations@[b].animation.tracks@[k2].node_path@)) is Some
                                        ==> #[trigger] has_call(calls@, b, k2, c2),
                                forall|k2: int, c2: int|
                                    0 <= k2 < k && 0 <= c2 < tracks@[k2].keyframes.spec_channels().len()
                                        && descendant(scene@, node, views(tracks@[k2].node_path@)) is Some
                                        ==> #[trigger] has_call(calls@, a as int, k2, c2),
                                forall|c2: int| 0 <= c2 < c ==> #[trigger] has_call(calls@, a as int, k as int, c2),
                                calls_ordered(calls@),
                                forall|q: int| 0 <= q < calls@.len() ==> (#[trigger] calls@[q]).animation < a
                                    || (calls@[q].animation == a && (calls@[q].track < k
                                    || (calls@[q].track == k && calls@[q].channel < c))),
                            decreases row@.len() - c,
                        {
                            let sample = row[c];
                            assert(sample_spec(chans@[c as int].keyframes@, frame.progress as int, sample));
                            assert(chans@[c as int].keyframes@[sample.index as int].target.type_key == chans@[c as int].type_id);
                            let call = InterpolationCall {
                                target,
                                animation: a,
                                track: k,
                                channel: c,
                                time_ms: frame.progress,
                                sample,
                            };
                            proof {
                                if let Some(j) = sample.previous {
                                    assert(chans@[c as int].keyframes@[j as int].target.type_key == chans@[c as int].type_id);
                                }
                            }
                            let ghost before = calls@;
                            calls.push(call);
                            proof {
                                assert forall|q: int| 0 <= q < calls@.len() implies {
                                    &&& call_ok(scene@, node, animations@, #[trigger] calls@[q])
                                    &&& was_playing(p0, animations@, calls@[q].animation as int)
                                    &&& calls@[q].time_ms == progress_after(p0, animations@, calls@[q].animation as int, delta_ms as int)
                                } by {
                                    if q < before.len() {
                                        assert(calls@[q] == before[q]);
                                    }
                                };
                                assert forall|b: int, k2: int, c2: int|
                                    0 <= b < a && 0 <= k2 < animations@[b].animation.tracks@.len()
                                        && 0 <= c2 < animations@[b].animation.tracks@[k2].keyframes.spec_channels().len()
                                        && was_playing(p0, animations@, b)
                                        && descendant(scene@, node, views(animations@[b].animation.tracks@[k2].node_path@)) is Some
                                        implies #[trigger] has_call(calls@, b, k2, c2) by {
                                    lemma_has_call_push(before, call, b, k2, c2);
                                };
                                assert forall|k2: int, c2: int|
                                    0 <= k2 < k && 0 <= c2 < tracks@[k2].keyframes.spec_channels().len()
                                        && descendant(scene@, node, views(tracks@[k2].node_path@)) is Some
                                        implies #[trigger] has_call(calls@, a as int, k2, c2) by {
                                    lemma_has_call_push(before, call, a as int, k2, c2);
                                };
                                assert forall|p: int, q: int| 0 <= p < q < calls@.len() implies
                                    call_before(#[trigger] calls@[p], #[trigger] calls@[q]) by {
                                    if q == before.len() {
                                        assert(calls@[p] == before[p]);
                                    } else {
                                        assert(calls@[p] == before[p] && calls@[q] == before[q]);
                                    }
                                };
                                assert forall|q: int| 0 <= q < calls@.len() implies (#[trigger] calls@[q]).animation < a
                                    || (calls@[q].animation == a && (calls@[q].track < k
                                    || (calls@[q].track == k && calls@[q].channel < c + 1))) by {
                                    if q < before.len() {
                                        assert(calls@[q] == before[q]);
                                    }
                                };
                                assert forall|c2: int| 0 <= c2 < c + 1 implies #[trigger] has_call(calls@, a as int, k as int, c2) by {
                                    lemma_has_call_push(before, call, a as int, k as int, c2);
                                };
                            }
                            c = c + 1;
                        }
                    }
                    k = k + 1;
                }
            },
        }
        a = a + 1;
    }
    calls
}

/// The value of keyframe `j` of the channel that `call` names.
pub open spec fn keyframe_value(animations: Seq<NamedAnimation<BuiltinTarget>>, call: InterpolationCall, j: int) -> BuiltinTarget {
    animations[call.animation as int].animation.tracks@[call.track as int].keyframes.spec_channels()[call.channel as int].keyframes@[j].target.data
}

/// Keyframe `j` of the call's channel is keyed by the type of its value.
pub open spec fn keyed_by_type(animations: Seq<NamedAnimation<BuiltinTarget>>, call: InterpolationCall, j: int) -> bool {
    animations[call.animation as int].animation.tracks@[call.track as int].keyframes.spec_channels()[call.channel as int].keyframes@[j].target.type_key
        == builtin_type_key(keyframe_value(animations, call, j))
}

/// The call names a keyframe of an existing channel of a well-formed
/// animation, the values it reads are in range, and each is keyed by its type.
pub open spec fn builtin_call_ok(animations: Seq<NamedAnimation<BuiltinTarget>>, call: InterpolationCall) -> bool {
    &&& call.animation < animations.len()
    &&& animations[call.animation as int].animation.well_formed()
    &&& call.track < animations[call.animation as int].animation.tracks@.len()
    &&& call.channel < animations[call.animation as int].animation.tracks@[call.track as int].keyframes.spec_channels().len()
    &&& call.sample.index < animations[call.animation as int].animation.tracks@[call.track as int].keyframes.spec_channels()[call.channel as int].keyframes@.len()
    &&& builtin_in_range(keyframe_value(animations, call, call.sample.index as int))
    &&& keyed_by_type(animations, call, call.sample.index as int)
    &&& (call.sample.previous matches Some(j) ==> j < call.sample.index
        && builtin_in_range(keyframe_value(animations, call, j as int))
        && keyed_by_type(animations, call, j as int))
}

/// Carries out an interpolation call of a built-in target on its node.
///
/// Both keyframes belong to one channel, so they share a type key; keyed
/// by their types, they are of the same target type.
pub fn apply_builtin_call(scene: &mut Scene, call: &InterpolationCall, animations: &Vec<NamedAnimation<BuiltinTarget>>)
    requires
        old(scene).well_formed(),
        call.target < old(scene)@.len(),
        builtin_call_ok(animations@, *call),
    ensures
        final(scene).well_formed(),
        final(scene)@ == old(scene)@.update(call.target as int, LiveNode {
            node: builtin_applied(
                old(scene)@[call.target as int].node,
                keyframe_value(animations@, *call, call.sample.index as int),
                match call.sample.previous {
                    Some(j) => Some(keyframe_value(animations@, *call, j as int)),
                    None => None,
                },
                call.sample.progress as int,
            ),
            ..old(scene)@[call.target as int]
        }),
{
    let track = &animations[call.animation].animation.tracks[call.track];
    assert(animations@[call.animation as int].animation.well_formed());
    assert(track.keyframes.well_formed());
    let kfs = &track.keyframes.channels()[call.channel].keyframes;
    let current = kfs[call.sample.index].target.data;
    let previous = match call.sample.previous {
        Some(j) => {
            proof {
                lemma_same_key_same_builtin(kfs@[j as int].target.data, current);
            }
            Some(kfs[j].target.data)
        },
        None => None,
    };
    let mut geometry = scene.node(call.target).node;
    let prev_ref = match &previous {
        Some(p) => Some(p),
        None => None,
    };
    current.interpolate(prev_ref, &mut geometry, call.sample.progress);
    scene.set_node(call.target, geometry);
}

} // verus!
