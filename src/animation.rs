//! Keyframes, their grouping into typed channels, and sampling of a channel
//! at a point of the time line.
use vstd::prelude::*;
use vstd::seq_lib::*;
use crate::curve::{TimeBezierCurve, curve_value, lemma_curve_value_bounded};
use crate::fixed::ONE;

verus! {

broadcast use vstd::seq_lib::group_to_multiset_ensures;

/// A type-erased animation value: the payload of an externally registered
/// target type, with the identity of that type.
pub struct DynamicAnimationTarget<V> {
    pub name: String,
    pub type_path: String,
    pub type_key: u64,
    pub data: V,
}

impl<V> DynamicAnimationTarget<V> {
    pub fn new(name: String, type_path: String, type_key: u64, data: V) -> (r: Self)
        ensures
            r.name == name,
            r.type_path == type_path,
            r.type_key == type_key,
            r.data == data,
    {
        DynamicAnimationTarget { name, type_path, type_key, data }
    }

    pub fn name(&self) -> (r: &String)
        ensures
            r == &self.name,
    {
        &self.name
    }

    pub fn target_type_path(&self) -> (r: &String)
        ensures
            r == &self.type_path,
    {
        &self.type_path
    }

    pub fn target_type_id(&self) -> (r: u64)
        ensures
            r == self.type_key,
    {
        self.type_key
    }

    pub fn is_type(&self, type_key: u64) -> (r: bool)
        ensures
            r == (self.type_key == type_key),
    {
        self.type_key == type_key
    }
}

/// One authored keyframe: a time stamp, a curve and the values it sets.
pub struct RawKeyframe<V> {
    pub timestamp_ms: usize,
    pub time_scale: TimeBezierCurve,
    pub targets: Vec<DynamicAnimationTarget<V>>,
}

/// A keyframe of a single target.
pub struct Keyframe<V> {
    pub timestamp_ms: usize,
    pub time_scale: TimeBezierCurve,
    pub target: DynamicAnimationTarget<V>,
}

/// The keyframes of one target type, in ascending time order.
pub struct KeyframeChannel<V> {
    pub type_id: u64,
    pub keyframes: Vec<Keyframe<V>>,
}

/// The keyframes of one raw keyframe, one per target.
pub open spec fn expand<V>(r: RawKeyframe<V>) -> Seq<Keyframe<V>> {
    r.targets@.map_values(
        |t: DynamicAnimationTarget<V>|
            Keyframe { timestamp_ms: r.timestamp_ms, time_scale: r.time_scale, target: t },
    )
}

/// All keyframes of a raw keyframe list, in authored order.
pub open spec fn flat<V>(raw: Seq<RawKeyframe<V>>) -> Seq<Keyframe<V>>
    decreases raw.len(),
{
    if raw.len() == 0 {
        Seq::empty()
    } else {
        flat(raw.drop_last()) + expand(raw.last())
    }
}

/// The keyframes of `s` whose target has type `key`.
pub open spec fn keyed<V>(s: Seq<Keyframe<V>>, key: u64) -> Seq<Keyframe<V>> {
    s.filter(|kf: Keyframe<V>| kf.target.type_key == key)
}

pub open spec fn sorted_by_time<V>(s: Seq<Keyframe<V>>) -> bool {
    forall|i: int, j: int|
        0 <= i <= j < s.len() ==> (#[trigger] s[i]).timestamp_ms <= (#[trigger] s[j]).timestamp_ms
}

/// The channels are nonempty, sorted, of distinct types, each holding only
/// keyframes of its own type.
pub open spec fn channels_well_formed<V>(chans: Seq<KeyframeChannel<V>>) -> bool {
    &&& forall|c: int| 0 <= c < chans.len() ==> (#[trigger] chans[c]).keyframes@.len() > 0
    &&& forall|c: int| 0 <= c < chans.len() ==> sorted_by_time((#[trigger] chans[c]).keyframes@)
    &&& forall|c: int, d: int|
        0 <= c < d < chans.len() ==> (#[trigger] chans[c]).type_id != (#[trigger] chans[d]).type_id
    &&& forall|c: int, i: int|
        0 <= c < chans.len() && 0 <= i < chans[c].keyframes@.len() ==>
            (#[trigger] chans[c].keyframes@[i]).target.type_key == chans[c].type_id
}

/// The channels hold exactly the keyframes of `s`, grouped by type.
pub open spec fn channels_group<V>(chans: Seq<KeyframeChannel<V>>, s: Seq<Keyframe<V>>) -> bool {
    &&& forall|c: int| 0 <= c < chans.len() ==>
        (#[trigger] chans[c]).keyframes@.to_multiset() == keyed(s, chans[c].type_id).to_multiset()
    &&& forall|i: int| 0 <= i < s.len() ==>
        exists|c: int| 0 <= c < chans.len() && (#[trigger] chans[c]).type_id == (#[trigger] s[i]).target.type_key
}

pub open spec fn last_time<V>(ch: KeyframeChannel<V>) -> int {
    ch.keyframes@.last().timestamp_ms as int
}

/// `m` is the largest last time stamp over the channels, or 0 without channels.
pub open spec fn is_max_length<V>(chans: Seq<KeyframeChannel<V>>, m: int) -> bool {
    &&& forall|c: int| 0 <= c < chans.len() ==> last_time(#[trigger] chans[c]) <= m
    &&& (chans.len() == 0 ==> m == 0)
    &&& (chans.len() > 0 ==> exists|c: int| 0 <= c < chans.len() && last_time(#[trigger] chans[c]) == m)
}

/// The number of keyframes over all channels.
pub open spec fn total_keyframes<V>(chans: Seq<KeyframeChannel<V>>) -> int
    decreases chans.len(),
{
    if chans.len() == 0 {
        0
    } else {
        total_keyframes(chans.drop_last()) + chans.last().keyframes@.len()
    }
}

proof fn lemma_total_update<V>(chans: Seq<KeyframeChannel<V>>, i: int, ch: KeyframeChannel<V>)
    requires
        0 <= i < chans.len(),
    ensures
        total_keyframes(chans.update(i, ch)) == total_keyframes(chans) - chans[i].keyframes@.len() + ch.keyframes@.len(),
    decreases chans.len(),
{
    if i < chans.len() - 1 {
        assert(chans.update(i, ch).drop_last() =~= chans.drop_last().update(i, ch));
        lemma_total_update(chans.drop_last(), i, ch);
    } else {
        assert(chans.update(i, ch).drop_last() =~= chans.drop_last());
    }
}

/// Inserts `kf` after every keyframe that is not later than it.
fn insert_sorted<V>(list: &mut Vec<Keyframe<V>>, kf: Keyframe<V>) -> (p: usize)
    requires
        sorted_by_time(old(list)@),
    ensures
        p <= old(list)@.len(),
        final(list)@ == old(list)@.insert(p as int, kf),
        sorted_by_time(final(list)@),
{
    let mut p: usize = 0;
    while p < list.len() && list[p].timestamp_ms <= kf.timestamp_ms
        invariant
            p <= list@.len(),
            sorted_by_time(list@),
            forall|i: int| 0 <= i < p ==> (#[trigger] list@[i]).timestamp_ms <= kf.timestamp_ms,
        decreases list@.len() - p,
    {
        p = p + 1;
    }
    let ghost before = list@;
    let ghost t = kf.timestamp_ms;
    list.insert(p, kf);
    assert forall|i: int, j: int| 0 <= i <= j < list@.len() implies
        (#[trigger] list@[i]).timestamp_ms <= (#[trigger] list@[j]).timestamp_ms by {
        if i < p && j < p {
            assert(list@[i] == before[i] && list@[j] == before[j]);
        } else if i < p && j == p {
            assert(list@[i] == before[i]);
        } else if i < p {
            assert(list@[i] == before[i] && list@[j] == before[j - 1]);
        } else if i == p && j > p {
            assert(list@[j] == before[j - 1]);
            assert(before[p as int].timestamp_ms > t);
        } else if i > p {
            assert(list@[i] == before[i - 1] && list@[j] == before[j - 1]);
        }
    };
    p
}

proof fn lemma_keyed_push<V>(s: Seq<Keyframe<V>>, kf: Keyframe<V>, key: u64)
    ensures
        keyed(s.push(kf), key) == (if kf.target.type_key == key {
            keyed(s, key).push(kf)
        } else {
            keyed(s, key)
        }),
{
    s.lemma_filter_push(kf, |k: Keyframe<V>| k.target.type_key == key);
}

/// Adds `kf` to the channel of its type, creating that channel if needed.
fn add_keyframe<V>(chans: &mut Vec<KeyframeChannel<V>>, kf: Keyframe<V>, Ghost(s): Ghost<Seq<Keyframe<V>>>)
    requires
        channels_well_formed(old(chans)@),
        channels_group(old(chans)@, s),
    ensures
        channels_well_formed(final(chans)@),
        channels_group(final(chans)@, s.push(kf)),
        total_keyframes(final(chans)@) == total_keyframes(old(chans)@) + 1,
{
    let key = kf.target.type_key;
    let ghost s2 = s.push(kf);
    let mut c: usize = 0;
    while c < chans.len() && chans[c].type_id != key
        invariant
            c <= chans@.len(),
            forall|d: int| 0 <= d < c ==> (#[trigger] chans@[d]).type_id != key,
        decreases chans@.len() - c,
    {
        c = c + 1;
    }
    let ghost old_chans = chans@;
    if c == chans.len() {
        let mut list: Vec<Keyframe<V>> = Vec::new();
        list.push(kf);
        assert(keyed(s, key).len() == 0) by {
            if keyed(s, key).len() > 0 {
                let x = keyed(s, key)[0];
                assert(keyed(s, key).contains(x));
                s.lemma_filter_contains_rev(|k: Keyframe<V>| k.target.type_key == key, x);
                let i = choose|i: int| 0 <= i < s.len() && s[i] == x;
                let d = choose|d: int| 0 <= d < old_chans.len() && (#[trigger] old_chans[d]).type_id == s[i].target.type_key;
                assert(old_chans[d].type_id != key);
            }
        };
        assert(keyed(s, key) =~= Seq::<Keyframe<V>>::empty());
        proof { lemma_keyed_push(s, kf, key); }
        assert(list@ =~= keyed(s2, key));
        chans.push(KeyframeChannel { type_id: key, keyframes: list });
        assert(chans@.drop_last() =~= old_chans);
        assert(chans@[c as int].keyframes@ =~= seq![kf]);
        assert forall|d: int| 0 <= d < chans@.len() implies
            (#[trigger] chans@[d]).keyframes@.to_multiset() == keyed(s2, chans@[d].type_id).to_multiset() by {
            lemma_keyed_push(s, kf, chans@[d].type_id);
            if d < c {
                assert(chans@[d] == old_chans[d]);
            }
        };
        assert forall|i: int| 0 <= i < s2.len() implies
            exists|d: int| 0 <= d < chans@.len() && (#[trigger] chans@[d]).type_id == (#[trigger] s2[i]).target.type_key by {
            if i < s.len() {
                assert(s2[i] == s[i]);
                let d = choose|d: int| 0 <= d < old_chans.len() && (#[trigger] old_chans[d]).type_id == s[i].target.type_key;
                assert(chans@[d] == old_chans[d]);
            } else {
                assert(chans@[c as int].type_id == s2[i].target.type_key);
            }
        };
    } else {
        let mut ch = chans.remove(c);
        assert(ch == old_chans[c as int]);
        let ghost old_list = ch.keyframes@;
        let p = insert_sorted(&mut ch.keyframes, kf);
        proof {
            to_multiset_insert(old_list, p as int, kf);
            lemma_keyed_push(s, kf, key);
            assert(keyed(s2, key).to_multiset() =~= keyed(s, key).to_multiset().insert(kf)) by {
                to_multiset_build(keyed(s, key), kf);
            };
        }
        chans.insert(c, ch);
        assert(chans@ =~= old_chans.update(c as int, ch));
        proof { lemma_total_update(old_chans, c as int, ch); }
        assert forall|d: int, i: int|
            0 <= d < chans@.len() && 0 <= i < chans@[d].keyframes@.len() implies
            (#[trigger] chans@[d].keyframes@[i]).target.type_key == chans@[d].type_id by {
            if d == c {
                if i < p {
                    assert(chans@[d].keyframes@[i] == old_list[i]);
                } else if i > p {
                    assert(chans@[d].keyframes@[i] == old_list[i - 1]);
                }
            }
        };
        assert forall|d: int| 0 <= d < chans@.len() implies
            (#[trigger] chans@[d]).keyframes@.to_multiset() == keyed(s2, chans@[d].type_id).to_multiset() by {
            lemma_keyed_push(s, kf, chans@[d].type_id);
        };
        assert forall|i: int| 0 <= i < s2.len() implies
            exists|d: int| 0 <= d < chans@.len() && (#[trigger] chans@[d]).type_id == (#[trigger] s2[i]).target.type_key by {
            if i < s.len() {
                assert(s2[i] == s[i]);
                let d = choose|d: int| 0 <= d < old_chans.len() && (#[trigger] old_chans[d]).type_id == s[i].target.type_key;
                assert(chans@[d].type_id == old_chans[d].type_id);
            } else {
                assert(chans@[c as int].type_id == s2[i].target.type_key);
            }
        };
    }
}

/// The keyframes of one animated node, grouped into channels by target type.
pub struct Keyframes<V> {
    max_length: usize,
    channels: Vec<KeyframeChannel<V>>,
}

impl<V> Keyframes<V> {
    pub closed spec fn spec_channels(&self) -> Seq<KeyframeChannel<V>> {
        self.channels@
    }

    pub closed spec fn spec_max_length(&self) -> int {
        self.max_length as int
    }

    /// Channels are well formed and the length is their largest last time stamp.
    pub open spec fn well_formed(&self) -> bool {
        &&& channels_well_formed(self.spec_channels())
        &&& is_max_length(self.spec_channels(), self.spec_max_length())
    }

    pub fn channels(&self) -> (r: &Vec<KeyframeChannel<V>>)
        ensures
            r@ == self.spec_channels(),
    {
        &self.channels
    }

    pub fn max_length(&self) -> (r: usize)
        ensures
            r == self.spec_max_length(),
    {
        self.max_length
    }

    /// Groups the targets of a raw keyframe list into one channel per target
    /// type, each sorted by time stamp.
    pub fn flatten_raw_keyframes(keyframes: Vec<RawKeyframe<V>>) -> (r: Self)
        ensures
            r.well_formed(),
            channels_group(r.spec_channels(), flat(keyframes@)),
            total_keyframes(r.spec_channels()) == flat(keyframes@).len(),
    {
        let ghost raw = keyframes@;
        let mut rest = keyframes;
        let mut chans: Vec<KeyframeChannel<V>> = Vec::new();
        let mut i: usize = 0;
        let n: usize = rest.len();
        while rest.len() > 0
            invariant
                raw.len() == n,
                i <= n,
                rest@ == raw.subrange(i as int, n as int),
                channels_well_formed(chans@),
                channels_group(chans@, flat(raw.subrange(0, i as int))),
                total_keyframes(chans@) == flat(raw.subrange(0, i as int)).len(),
            decreases rest.len(),
        {
            assert(rest@.len() == n - i);
            let raw_kf = rest.remove(0);
            assert(raw_kf == raw[i as int]);
            let ghost done = flat(raw.subrange(0, i as int));
            assert(raw.subrange(0, i + 1).drop_last() =~= raw.subrange(0, i as int));
            assert(flat(raw.subrange(0, i + 1)) == done + expand(raw_kf));
            let timestamp_ms = raw_kf.timestamp_ms;
            let time_scale = raw_kf.time_scale;
            let mut targets = raw_kf.targets;
            let ghost all_targets = targets@;
            let mut j: usize = 0;
            let m: usize = targets.len();
            while targets.len() > 0
                invariant
                    all_targets.len() == m,
                    j <= m,
                    targets@ == all_targets.subrange(j as int, m as int),
                    all_targets == raw_kf.targets@,
                    timestamp_ms == raw_kf.timestamp_ms,
                    time_scale == raw_kf.time_scale,
                    channels_well_formed(chans@),
                    channels_group(chans@, done + expand(raw_kf).subrange(0, j as int)),
                    total_keyframes(chans@) == (done + expand(raw_kf).subrange(0, j as int)).len(),
                decreases targets.len(),
            {
                assert(targets@.len() == m - j);
                let target = targets.remove(0);
                let kf = Keyframe { timestamp_ms, time_scale, target };
                assert(kf == expand(raw_kf)[j as int]);
                let ghost before = done + expand(raw_kf).subrange(0, j as int);
                add_keyframe(&mut chans, kf, Ghost(before));
                assert(before.push(kf) =~= done + expand(raw_kf).subrange(0, j + 1));
                j = j + 1;
            }
            assert(expand(raw_kf).subrange(0, j as int) =~= expand(raw_kf));
            i = i + 1;
        }
        assert(raw.subrange(0, n as int) =~= raw);
        let mut max_length: usize = 0;
        let mut c: usize = 0;
        while c < chans.len()
            invariant
                c <= chans@.len(),
                channels_well_formed(chans@),
                forall|d: int| 0 <= d < c ==> last_time(#[trigger] chans@[d]) <= max_length,
                c == 0 ==> max_length == 0,
                c > 0 ==> exists|d: int| 0 <= d < c && last_time(#[trigger] chans@[d]) == max_length,
            decreases chans@.len() - c,
        {
            let len = chans[c].keyframes.len();
            let last = chans[c].keyframes[len - 1].timestamp_ms;
            assert(last_time(chans@[c as int]) == last);
            if c == 0 || last > max_length {
                max_length = last;
            }
            c = c + 1;
        }
        Keyframes { max_length, channels: chans }
    }
}

/// What one channel contributes at one point of the time line: the keyframe
/// whose value applies, the keyframe it is interpolated from, and how far.
#[derive(Clone, Copy, Debug, PartialEq, Eq, Structural)]
pub struct ChannelSample {
    /// The index of the current keyframe.
    pub index: usize,
    /// The index of the keyframe interpolated from; none before the first keyframe.
    pub previous: Option<usize>,
    /// Progress between the two keyframes, in `[0, ONE]`, before the curve.
    pub linear_progress: i32,
    /// Progress after the current keyframe's curve.
    pub progress: i64,
    /// Whether the time line is at or past the last keyframe.
    pub reached_end: bool,
}

/// `num / den` in fixed-point units, at most `ONE`; `ONE` when `den` is 0.
pub open spec fn clamped_ratio(num: int, den: int) -> int {
    if den == 0 {
        ONE as int
    } else if num * (ONE as int) / den > ONE as int {
        ONE as int
    } else {
        num * (ONE as int) / den
    }
}

/// The sample of sorted keyframes `kfs` at time `t`.
pub open spec fn sample_spec<V>(kfs: Seq<Keyframe<V>>, t: int, r: ChannelSample) -> bool {
    let i = r.index as int;
    &&& 0 <= i < kfs.len()
    &&& r.reached_end == (forall|j: int| 0 <= j < kfs.len() ==> (#[trigger] kfs[j]).timestamp_ms <= t)
    &&& (r.reached_end ==> i == kfs.len() - 1)
    &&& (!r.reached_end ==> t < kfs[i].timestamp_ms
        && forall|j: int| 0 <= j < i ==> (#[trigger] kfs[j]).timestamp_ms <= t)
    &&& (i == 0 ==> r.previous is None
        && r.linear_progress == clamped_ratio(t, kfs[0].timestamp_ms as int))
    &&& (i > 0 ==> r.previous == Some((i - 1) as usize)
        && r.linear_progress == clamped_ratio(
            t - kfs[i - 1].timestamp_ms,
            kfs[i].timestamp_ms - kfs[i - 1].timestamp_ms,
        ))
    &&& r.progress == curve_value(kfs[i].time_scale, r.linear_progress as int)
}

fn ratio(num: usize, den: usize) -> (r: i32)
    ensures
        r == clamped_ratio(num as int, den as int),
        0 <= r <= ONE,
{
    if den == 0 {
        return ONE as i32;
    }
    assert((num as u128) * 65536 <= 0xffff_ffff_ffff_ffffu128 * 65536) by (nonlinear_arith);
    let scaled: u128 = (num as u128) * (ONE as u128);
    let q: u128 = scaled / (den as u128);
    if q > ONE as u128 {
        ONE as i32
    } else {
        q as i32
    }
}

impl<V> KeyframeChannel<V> {
    /// Samples this channel at `progress` milliseconds.
    pub fn sample(&self, progress: usize) -> (r: ChannelSample)
        requires
            self.keyframes@.len() > 0,
            sorted_by_time(self.keyframes@),
        ensures
            sample_spec(self.keyframes@, progress as int, r),
    {
        let kfs = &self.keyframes;
        let mut i: usize = 0;
        while i < kfs.len() && kfs[i].timestamp_ms <= progress
            invariant
                i <= kfs@.len(),
                forall|j: int| 0 <= j < i ==> (#[trigger] kfs@[j]).timestamp_ms <= progress,
            decreases kfs@.len() - i,
        {
            i = i + 1;
        }
        let reached_end = i == kfs.len();
        let index = if reached_end { i - 1 } else { i };
        if !reached_end {
            assert(!(forall|j: int| 0 <= j < kfs@.len() ==> (#[trigger] kfs@[j]).timestamp_ms <= progress)) by {
                assert(kfs@[i as int].timestamp_ms > progress);
            };
        }
        let kf = &kfs[index];
        if index == 0 {
            let linear_progress = ratio(progress, kf.timestamp_ms);
            proof { lemma_curve_value_bounded(kf.time_scale, linear_progress as int); }
            let mapped = kf.time_scale.map(linear_progress) as i64;
            ChannelSample { index, previous: None, linear_progress, progress: mapped, reached_end }
        } else {
            let prev = &kfs[index - 1];
            assert(prev.timestamp_ms <= progress);
            assert(prev.timestamp_ms <= kf.timestamp_ms);
            let linear_progress = ratio(progress - prev.timestamp_ms, kf.timestamp_ms - prev.timestamp_ms);
            proof { lemma_curve_value_bounded(kf.time_scale, linear_progress as int); }
            let mapped = kf.time_scale.map(linear_progress) as i64;
            ChannelSample { index, previous: Some(index - 1), linear_progress, progress: mapped, reached_end }
        }
    }
}

/// The keyframes of one node of an animation, addressed by the node's path
/// below the node that plays the animation.
pub struct AnimationTrack<V> {
    pub node_path: Vec<String>,
    pub keyframes: Keyframes<V>,
}

/// A named animation of a layout: one track per animated node.
pub struct LayoutAnimation<V> {
    pub tracks: Vec<AnimationTrack<V>>,
}

/// The samples of every channel of every track at one time.
pub open spec fn samples_spec<V>(tracks: Seq<AnimationTrack<V>>, t: int, r: Seq<Vec<ChannelSample>>) -> bool {
    &&& r.len() == tracks.len()
    &&& forall|k: int| 0 <= k < tracks.len() ==>
        (#[trigger] r[k])@.len() == tracks[k].keyframes.spec_channels().len()
    &&& forall|k: int, c: int| 0 <= k < tracks.len() && 0 <= c < r[k]@.len() ==>
        sample_spec(tracks[k].keyframes.spec_channels()[c].keyframes@, t, #[trigger] r[k]@[c])
}

/// Every channel of every track has reached its last keyframe.
pub open spec fn all_reached_end(r: Seq<Vec<ChannelSample>>) -> bool {
    forall|k: int, c: int| 0 <= k < r.len() && 0 <= c < r[k]@.len() ==> (#[trigger] r[k]@[c]).reached_end
}

/// The largest length over the tracks, or 0 without tracks.
pub open spec fn is_animation_length<V>(tracks: Seq<AnimationTrack<V>>, m: int) -> bool {
    &&& forall|k: int| 0 <= k < tracks.len() ==> (#[trigger] tracks[k]).keyframes.spec_max_length() <= m
    &&& (tracks.len() == 0 ==> m == 0)
    &&& (tracks.len() > 0 ==> exists|k: int|
        0 <= k < tracks.len() && (#[trigger] tracks[k]).keyframes.spec_max_length() == m)
}

/// The largest length over the tracks, or 0 without tracks.
pub open spec fn animation_length<V>(tracks: Seq<AnimationTrack<V>>) -> int
    decreases tracks.len(),
{
    if tracks.len() == 0 {
        0
    } else {
        let rest = animation_length(tracks.drop_last());
        let last = tracks.last().keyframes.spec_max_length();
        if last > rest { last } else { rest }
    }
}

/// Every channel of every track has its last keyframe at or before `t`.
pub open spec fn all_channels_done<V>(tracks: Seq<AnimationTrack<V>>, t: int) -> bool {
    forall|k: int, c: int, j: int|
        0 <= k < tracks.len() && 0 <= c < tracks[k].keyframes.spec_channels().len()
            && 0 <= j < tracks[k].keyframes.spec_channels()[c].keyframes@.len()
            ==> (#[trigger] tracks[k].keyframes.spec_channels()[c].keyframes@[j]).timestamp_ms <= t
}

/// Samples taken at `t` have all reached the end exactly when every channel is done at `t`.
pub proof fn lemma_reached_end_iff_done<V>(tracks: Seq<AnimationTrack<V>>, t: int, r: Seq<Vec<ChannelSample>>)
    requires
        samples_spec(tracks, t, r),
    ensures
        all_reached_end(r) == all_channels_done(tracks, t),
{
    if all_reached_end(r) {
        assert forall|k: int, c: int, j: int|
            0 <= k < tracks.len() && 0 <= c < tracks[k].keyframes.spec_channels().len()
                && 0 <= j < tracks[k].keyframes.spec_channels()[c].keyframes@.len()
                implies (#[trigger] tracks[k].keyframes.spec_channels()[c].keyframes@[j]).timestamp_ms <= t by {
            assert(r[k]@[c].reached_end);
            assert(sample_spec(tracks[k].keyframes.spec_channels()[c].keyframes@, t, r[k]@[c]));
        };
    }
    if all_channels_done(tracks, t) {
        assert forall|k: int, c: int| 0 <= k < r.len() && 0 <= c < r[k]@.len() implies
            (#[trigger] r[k]@[c]).reached_end by {
            assert(sample_spec(tracks[k].keyframes.spec_channels()[c].keyframes@, t, r[k]@[c]));
            let kfs = tracks[k].keyframes.spec_channels()[c].keyframes@;
            assert forall|j: int| 0 <= j < kfs.len() implies (#[trigger] kfs[j]).timestamp_ms <= t by {
                assert(tracks[k].keyframes.spec_channels()[c].keyframes@[j].timestamp_ms <= t);
            };
        };
    }
}

impl<V> LayoutAnimation<V> {
    pub open spec fn well_formed(&self) -> bool {
        forall|k: int| 0 <= k < self.tracks@.len() ==> (#[trigger] self.tracks@[k]).keyframes.well_formed()
    }

    /// The length of the animation: the largest length over its tracks.
    pub fn max_length(&self) -> (r: usize)
        ensures
            is_animation_length(self.tracks@, r as int),
            r == animation_length(self.tracks@),
    {
        let mut m: usize = 0;
        let mut k: usize = 0;
        while k < self.tracks.len()
            invariant
                k <= self.tracks@.len(),
                forall|j: int| 0 <= j < k ==> (#[trigger] self.tracks@[j]).keyframes.spec_max_length() <= m,
                k == 0 ==> m == 0,
                k > 0 ==> exists|j: int| 0 <= j < k && (#[trigger] self.tracks@[j]).keyframes.spec_max_length() == m,
                m == animation_length(self.tracks@.subrange(0, k as int)),
            decreases self.tracks@.len() - k,
        {
            assert(self.tracks@.subrange(0, k + 1).drop_last() =~= self.tracks@.subrange(0, k as int));
            assert(self.tracks@.subrange(0, k + 1).last() == self.tracks@[k as int]);
            let l = self.tracks[k].keyframes.max_length();
            if k == 0 || l > m {
                m = l;
            }
            k = k + 1;
        }
        assert(self.tracks@.subrange(0, k as int) =~= self.tracks@);
        m
    }

    /// Samples every channel of every track at `progress` milliseconds, and
    /// tells whether all of them have reached their last keyframe.
    pub fn sample(&self, progress: usize) -> (r: (Vec<Vec<ChannelSample>>, bool))
        requires
            self.well_formed(),
        ensures
            samples_spec(self.tracks@, progress as int, r.0@),
            r.1 == all_reached_end(r.0@),
    {
        let mut out: Vec<Vec<ChannelSample>> = Vec::new();
        let mut all_end = true;
        let mut k: usize = 0;
        while k < self.tracks.len()
            invariant
                self.well_formed(),
                k <= self.tracks@.len(),
                samples_spec(self.tracks@.subrange(0, k as int), progress as int, out@),
                all_end == all_reached_end(out@),
            decreases self.tracks@.len() - k,
        {
            let chans = self.tracks[k].keyframes.channels();
            assert(self.tracks@[k as int].keyframes.well_formed());
            let mut row: Vec<ChannelSample> = Vec::new();
            let mut c: usize = 0;
            while c < chans.len()
                invariant
                    k < self.tracks@.len(),
                    chans@ == self.tracks@[k as int].keyframes.spec_channels(),
                    channels_well_formed(chans@),
                    c <= chans@.len(),
                    row@.len() == c,
                    forall|d: int| 0 <= d < c ==>
                        sample_spec(chans@[d].keyframes@, progress as int, #[trigger] row@[d]),
                    all_end == (all_reached_end(out@) && forall|d: int| 0 <= d < c ==> (#[trigger] row@[d]).reached_end),
                decreases chans@.len() - c,
            {
                assert(chans@[c as int].keyframes@.len() > 0);
                assert(sorted_by_time(chans@[c as int].keyframes@));
                let smp = chans[c].sample(progress);
                if !smp.reached_end {
                    all_end = false;
                }
                let ghost row_before = row@;
                row.push(smp);
                assert((forall|d: int| 0 <= d < c + 1 ==> (#[trigger] row@[d]).reached_end) ==
                    ((forall|d: int| 0 <= d < c ==> (#[trigger] row_before[d]).reached_end) && smp.reached_end)) by {
                    assert forall|d: int| 0 <= d < c implies row@[d] == row_before[d] by {};
                    assert(row@[c as int] == smp);
                };
                c = c + 1;
            }
            let ghost prev = out@;
            out.push(row);
            assert(self.tracks@.subrange(0, k + 1).drop_last() =~= self.tracks@.subrange(0, k as int));
            assert forall|j: int, d: int| 0 <= j < k + 1 && 0 <= d < out@[j]@.len() implies
                sample_spec(self.tracks@.subrange(0, k + 1)[j].keyframes.spec_channels()[d].keyframes@,
                    progress as int, #[trigger] out@[j]@[d]) by {
                if j < k {
                    assert(out@[j] == prev[j]);
                    assert(self.tracks@.subrange(0, k + 1)[j] == self.tracks@.subrange(0, k as int)[j]);
                }
            };
            assert forall|j: int| 0 <= j < k + 1 implies
                (#[trigger] out@[j])@.len() == self.tracks@.subrange(0, k + 1)[j].keyframes.spec_channels().len() by {
                if j < k {
                    assert(out@[j] == prev[j]);
                    assert(self.tracks@.subrange(0, k + 1)[j] == self.tracks@.subrange(0, k as int)[j]);
                }
            };
            assert(all_end == all_reached_end(out@)) by {
                if all_end {
                    assert forall|j: int, d: int| 0 <= j < out@.len() && 0 <= d < out@[j]@.len()
                        implies (#[trigger] out@[j]@[d]).reached_end by {
                        if j < k {
                            assert(out@[j] == prev[j]);
                        }
                    };
                } else {
                    if !all_reached_end(prev) {
                        let (j, d) = choose|j: int, d: int| 0 <= j < prev.len() && 0 <= d < prev[j]@.len()
                            && !(#[trigger] prev[j]@[d]).reached_end;
                        assert(out@[j] == prev[j]);
                        assert(!out@[j]@[d].reached_end);
                    } else {
                        let d = choose|d: int| 0 <= d < row@.len() && !(#[trigger] row@[d]).reached_end;
                        assert(out@[k as int]@[d] == row@[d]);
                    }
                }
            };
            k = k + 1;
        }
        assert(self.tracks@.subrange(0, k as int) =~= self.tracks@);
        (out, all_end)
    }
}

} // verus!
