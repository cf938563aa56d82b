//! The per-node playback state machine of named animations.
use vstd::prelude::*;
use crate::animation::{
    ChannelSample, LayoutAnimation, all_channels_done, all_reached_end, animation_length,
    lemma_reached_end_iff_done, samples_spec,
};

verus! {

/// Where a playing or paused animation stands on its time line.
#[derive(Clone, Copy, Debug, PartialEq, Eq, Structural)]
pub enum Progress {
    /// Start from the end of the animation: resolved to its length on the next update.
    FromEnd,
    /// Milliseconds since the start of the animation.
    At(usize),
}

/// The full playback state of one named animation.
#[derive(Clone, Copy, Debug, PartialEq, Eq, Structural)]
pub enum InternalPlaybackState {
    Stopped,
    Paused { progress: Progress, is_reverse: bool },
    Playing { progress: Progress, is_reverse: bool },
}

/// The coarse playback state reported to callers.
#[derive(Clone, Copy, Debug, PartialEq, Eq, Structural)]
pub enum PlaybackState {
    Stopped,
    Paused,
    Playing,
}

pub open spec fn coarse(s: InternalPlaybackState) -> PlaybackState {
    match s {
        InternalPlaybackState::Stopped => PlaybackState::Stopped,
        InternalPlaybackState::Paused { .. } => PlaybackState::Paused,
        InternalPlaybackState::Playing { .. } => PlaybackState::Playing,
    }
}

impl PlaybackState {
    pub fn from_internal(internal: &InternalPlaybackState) -> (r: Self)
        ensures
            r == coarse(*internal),
    {
        match internal {
            InternalPlaybackState::Stopped => PlaybackState::Stopped,
            InternalPlaybackState::Paused { .. } => PlaybackState::Paused,
            InternalPlaybackState::Playing { .. } => PlaybackState::Playing,
        }
    }
}

/// The state after `play`.
pub open spec fn played() -> InternalPlaybackState {
    InternalPlaybackState::Playing { progress: Progress::At(0), is_reverse: false }
}

/// The state after `pause`: only a playing animation is affected.
pub open spec fn paused(s: InternalPlaybackState) -> InternalPlaybackState {
    match s {
        InternalPlaybackState::Playing { progress, is_reverse } =>
            InternalPlaybackState::Paused { progress, is_reverse },
        _ => s,
    }
}

/// The state after `resume`: only a paused animation is affected.
pub open spec fn resumed(s: InternalPlaybackState) -> InternalPlaybackState {
    match s {
        InternalPlaybackState::Paused { progress, is_reverse } =>
            InternalPlaybackState::Playing { progress, is_reverse },
        _ => s,
    }
}

/// The state after `reverse`: the direction of a running or paused animation flips.
pub open spec fn reversed(s: InternalPlaybackState) -> InternalPlaybackState {
    match s {
        InternalPlaybackState::Paused { progress, is_reverse } =>
            InternalPlaybackState::Paused { progress, is_reverse: !is_reverse },
        InternalPlaybackState::Playing { progress, is_reverse } =>
            InternalPlaybackState::Playing { progress, is_reverse: !is_reverse },
        InternalPlaybackState::Stopped => s,
    }
}

/// The state after `play_or_reverse`: a stopped animation plays backwards from its end.
pub open spec fn played_or_reversed(s: InternalPlaybackState) -> InternalPlaybackState {
    match s {
        InternalPlaybackState::Stopped =>
            InternalPlaybackState::Playing { progress: Progress::FromEnd, is_reverse: true },
        _ => reversed(s),
    }
}

fn pause_one(s: InternalPlaybackState) -> (r: InternalPlaybackState)
    ensures
        r == paused(s),
{
    match s {
        InternalPlaybackState::Playing { progress, is_reverse } =>
            InternalPlaybackState::Paused { progress, is_reverse },
        _ => s,
    }
}

fn resume_one(s: InternalPlaybackState) -> (r: InternalPlaybackState)
    ensures
        r == resumed(s),
{
    match s {
        InternalPlaybackState::Paused { progress, is_reverse } =>
            InternalPlaybackState::Playing { progress, is_reverse },
        _ => s,
    }
}

fn reverse_one(s: InternalPlaybackState) -> (r: InternalPlaybackState)
    ensures
        r == reversed(s),
{
    match s {
        InternalPlaybackState::Paused { progress, is_reverse } =>
            InternalPlaybackState::Paused { progress, is_reverse: !is_reverse },
        InternalPlaybackState::Playing { progress, is_reverse } =>
            InternalPlaybackState::Playing { progress, is_reverse: !is_reverse },
        InternalPlaybackState::Stopped => s,
    }
}

fn play_or_reverse_one(s: InternalPlaybackState) -> (r: InternalPlaybackState)
    ensures
        r == played_or_reversed(s),
{
    match s {
        InternalPlaybackState::Stopped =>
            InternalPlaybackState::Playing { progress: Progress::FromEnd, is_reverse: true },
        _ => reverse_one(s),
    }
}

/// The time line position after one frame of `delta` milliseconds: the start
/// position, with the end resolved to `max_length`, moved back or forth and
/// saturated at both ends of `usize`.
pub open spec fn advanced(progress: Progress, is_reverse: bool, delta: int, max_length: int) -> int {
    let base = match progress {
        Progress::FromEnd => max_length,
        Progress::At(p) => p as int,
    };
    if is_reverse {
        if base - delta < 0 { 0 } else { base - delta }
    } else {
        if base + delta > usize::MAX { usize::MAX as int } else { base + delta }
    }
}

pub fn advance_progress(progress: Progress, is_reverse: bool, delta_ms: usize, max_length: usize) -> (r: usize)
    ensures
        r == advanced(progress, is_reverse, delta_ms as int, max_length as int),
{
    let base = match progress {
        Progress::FromEnd => max_length,
        Progress::At(p) => p,
    };
    if is_reverse {
        base.saturating_sub(delta_ms)
    } else {
        base.saturating_add(delta_ms)
    }
}

/// What one frame of a playing animation does: the new time line position,
/// a sample of every channel of every track, and whether the animation ended.
pub struct AnimationFrame {
    pub progress: usize,
    pub samples: Vec<Vec<ChannelSample>>,
    pub finished: bool,
}

/// The state after a frame at `progress`: stopped once finished.
pub open spec fn after_frame(finished: bool, progress: usize, is_reverse: bool) -> InternalPlaybackState {
    if finished {
        InternalPlaybackState::Stopped
    } else {
        InternalPlaybackState::Playing { progress: Progress::At(progress), is_reverse }
    }
}

/// The state of an animation after one frame of `delta` milliseconds of
/// `animation`: a playing animation moves on its time line; played forwards
/// it stops once every channel is done, played in reverse once it reaches 0.
/// Others stay.
pub open spec fn stepped<V>(s: InternalPlaybackState, animation: LayoutAnimation<V>, delta: int) -> InternalPlaybackState {
    match s {
        InternalPlaybackState::Playing { progress, is_reverse } => {
            let t = advanced(progress, is_reverse, delta, animation_length(animation.tracks@));
            after_frame(
                if is_reverse { t == 0 } else { all_channels_done(animation.tracks@, t) },
                t as usize,
                is_reverse,
            )
        },
        _ => s,
    }
}

/// Pausing a playing animation and resuming it restores its position and
/// direction; a stopped animation that is played-or-reversed plays backwards
/// from its end, and the first frame, even of zero milliseconds, puts it at
/// the animation's length.
pub proof fn lemma_playback_laws(s: InternalPlaybackState, max_length: usize)
    ensures
        played() is Playing,
        s is Playing ==> resumed(paused(s)) == s,
        s is Stopped ==> played_or_reversed(s) == (InternalPlaybackState::Playing {
            progress: Progress::FromEnd,
            is_reverse: true,
        }),
        advanced(Progress::FromEnd, true, 0, max_length as int) == max_length,
{
}

/// A stopped animation that is played-or-reversed keeps playing in reverse
/// after its first frame of zero milliseconds, from the animation's length.
pub proof fn lemma_reverse_from_end<V>(animation: LayoutAnimation<V>)
    requires
        0 < animation_length(animation.tracks@) <= usize::MAX,
    ensures
        stepped(played_or_reversed(InternalPlaybackState::Stopped), animation, 0)
            == (InternalPlaybackState::Playing {
                progress: Progress::At(animation_length(animation.tracks@) as usize),
                is_reverse: true,
            }),
{
}

/// One named animation and its state.
pub struct PlaybackEntry {
    pub name: String,
    pub state: InternalPlaybackState,
}

/// The playback states of all animations of one layout node, keyed by name.
pub struct LayoutAnimationPlaybackState {
    entries: Vec<PlaybackEntry>,
}

impl LayoutAnimationPlaybackState {
    /// The names are unique.
    pub closed spec fn well_formed(&self) -> bool {
        forall|i: int, j: int|
            0 <= i < j < self.entries@.len() ==> (#[trigger] self.entries@[i]).name@
                != (#[trigger] self.entries@[j]).name@
    }

    pub closed spec fn view(&self) -> Map<Seq<char>, InternalPlaybackState> {
        Map::new(
            |k: Seq<char>| exists|i: int| 0 <= i < self.entries@.len() && self.entries@[i].name@ == k,
            |k: Seq<char>|
                self.entries@[choose|i: int|
                    0 <= i < self.entries@.len() && self.entries@[i].name@ == k].state,
        )
    }

    proof fn lemma_view_at(&self, i: int)
        requires
            self.well_formed(),
            0 <= i < self.entries@.len(),
        ensures
            self@.contains_key(self.entries@[i].name@),
            self@[self.entries@[i].name@] == self.entries@[i].state,
    {
        let k = self.entries@[i].name@;
        assert(self@.contains_key(k));
        let j = choose|j: int| 0 <= j < self.entries@.len() && self.entries@[j].name@ == k;
        if j != i {
            if j < i {
                assert(self.entries@[j].name@ != self.entries@[i].name@);
            } else {
                assert(self.entries@[i].name@ != self.entries@[j].name@);
            }
        }
    }

    /// A state with every given animation name stopped; a repeated name counts once.
    pub fn new(names: Vec<String>) -> (r: Self)
        ensures
            r.well_formed(),
            forall|k: Seq<char>|
                r@.contains_key(k) <==> exists|m: int| 0 <= m < names@.len() && (#[trigger] names@[m])@ == k,
            forall|k: Seq<char>| #[trigger] r@.contains_key(k) ==> r@[k] == InternalPlaybackState::Stopped,
    {
        let mut out = LayoutAnimationPlaybackState { entries: Vec::new() };
        let mut names = names;
        let ghost all = names@;
        let mut i: usize = 0;
        let n: usize = names.len();
        while names.len() > 0
            invariant
                all.len() == n,
                out.well_formed(),
                0 <= i <= all.len(),
                names@ == all.subrange(i as int, all.len() as int),
                forall|k: Seq<char>|
                    out@.contains_key(k) <==> exists|m: int| 0 <= m < i && (#[trigger] all[m])@ == k,
                forall|j: int| 0 <= j < out.entries@.len() ==>
                    (#[trigger] out.entries@[j]).state == InternalPlaybackState::Stopped,
            decreases names.len(),
        {
            assert(names@.len() == all.len() - i);
            let name = names.remove(0);
            assert(name == all[i as int]);
            let ghost before = out@;
            let ghost old_entries = out.entries@;
            let found = out.find(&name);
            match found {
                Some(j) => {
                    assert(out.entries@[j as int].name@ == name@);
                    assert(before.contains_key(name@));
                    assert(out@ == before);
                },
                None => {
                    proof {
                        assert forall|j: int| 0 <= j < old_entries.len() implies
                            (#[trigger] old_entries[j]).name@ != name@ by {
                            if old_entries[j].name@ == name@ {
                                assert(before.contains_key(name@));
                            }
                        };
                    }
                    out.entries.push(PlaybackEntry { name, state: InternalPlaybackState::Stopped });
                    assert(out.entries@ == old_entries.push(out.entries@[old_entries.len() as int]));
                    assert forall|k: Seq<char>| out@.contains_key(k) <==> before.contains_key(k)
                        || k == all[i as int]@ by {
                        if out@.contains_key(k) {
                            let j = choose|j: int| 0 <= j < out.entries@.len() && out.entries@[j].name@ == k;
                            if j < old_entries.len() {
                                assert(old_entries[j].name@ == k);
                            }
                        }
                        if before.contains_key(k) {
                            let j = choose|j: int| 0 <= j < old_entries.len() && old_entries[j].name@ == k;
                            assert(out.entries@[j].name@ == k);
                        }
                        if k == all[i as int]@ {
                            assert(out.entries@[old_entries.len() as int].name@ == k);
                        }
                    };
                },
            }
            assert(forall|k: Seq<char>| out@.contains_key(k) <==> before.contains_key(k)
                || k == all[i as int]@);
            assert forall|k: Seq<char>|
                out@.contains_key(k) <==> exists|m: int| 0 <= m < i + 1 && (#[trigger] all[m])@ == k by {
                if before.contains_key(k) {
                    let m = choose|m: int| 0 <= m < i && (#[trigger] all[m])@ == k;
                    assert(0 <= m < i + 1 && all[m]@ == k);
                }
                if k == all[i as int]@ {
                    assert(exists|m: int| 0 <= m < i + 1 && (#[trigger] all[m])@ == k);
                }
                if exists|m: int| 0 <= m < i + 1 && (#[trigger] all[m])@ == k {
                    let m = choose|m: int| 0 <= m < i + 1 && (#[trigger] all[m])@ == k;
                    if m < i {
                        assert(before.contains_key(k));
                    }
                }
            };
            i = i + 1;
        }
        assert forall|k: Seq<char>| #[trigger] out@.contains_key(k) implies out@[k]
            == InternalPlaybackState::Stopped by {
            let j = choose|j: int| 0 <= j < out.entries@.len() && out.entries@[j].name@ == k;
            out.lemma_view_at(j);
        };
        out
    }

    /// The position of the entry named `name`.
    fn find(&self, name: &String) -> (r: Option<usize>)
        requires
            self.well_formed(),
        ensures
            match r {
                Some(i) => i < self.entries@.len() && self.entries@[i as int].name@ == name@,
                None => !self@.contains_key(name@),
            },
    {
        let mut i: usize = 0;
        while i < self.entries.len()
            invariant
                i <= self.entries@.len(),
                forall|j: int| 0 <= j < i ==> (#[trigger] self.entries@[j]).name@ != name@,
            decreases self.entries@.len() - i,
        {
            if self.entries[i].name == *name {
                return Some(i);
            }
            i = i + 1;
        }
        None
    }

    /// Replaces the state of entry `i`.
    fn set_at(&mut self, i: usize, s: InternalPlaybackState)
        requires
            old(self).well_formed(),
            i < old(self).entries@.len(),
        ensures
            final(self).well_formed(),
            final(self)@ == old(self)@.insert(old(self).entries@[i as int].name@, s),
    {
        let ghost before = *self;
        let name = self.entries[i].name.clone();
        self.entries.set(i, PlaybackEntry { name, state: s });
        proof {
            let k = before.entries@[i as int].name@;
            assert forall|j: int| 0 <= j < self.entries@.len() implies
                (#[trigger] self.entries@[j]).name@ == before.entries@[j].name@ by {};
            assert forall|m: Seq<char>| self@.contains_key(m) <==> before@.insert(k, s).contains_key(m) by {
                if self@.contains_key(m) {
                    let j = choose|j: int| 0 <= j < self.entries@.len() && self.entries@[j].name@ == m;
                    assert(before.entries@[j].name@ == m);
                }
                if before@.contains_key(m) {
                    let j = choose|j: int| 0 <= j < before.entries@.len() && before.entries@[j].name@ == m;
                    assert(self.entries@[j].name@ == m);
                }
                if m == k {
                    assert(self.entries@[i as int].name@ == m);
                }
            };
            assert forall|m: Seq<char>| #[trigger] self@.contains_key(m) implies self@[m]
                == before@.insert(k, s)[m] by {
                let j = choose|j: int| 0 <= j < self.entries@.len() && self.entries@[j].name@ == m;
                self.lemma_view_at(j);
                if j != i {
                    before.lemma_view_at(j);
                } else {
                    assert(m == k);
                }
            };
            assert(self@ =~= before@.insert(k, s));
        }
    }

    /// Whether any animation is currently playing.
    pub fn is_playing_any(&self) -> (r: bool)
        requires
            self.well_formed(),
        ensures
            r == exists|k: Seq<char>| #[trigger] self@.contains_key(k)
                && self@[k] is Playing,
    {
        let mut i: usize = 0;
        while i < self.entries.len()
            invariant
                self.well_formed(),
                i <= self.entries@.len(),
                forall|j: int| 0 <= j < i ==> !((#[trigger] self.entries@[j]).state is Playing),
            decreases self.entries@.len() - i,
        {
            if let InternalPlaybackState::Playing { .. } = self.entries[i].state {
                proof { self.lemma_view_at(i as int); }
                return true;
            }
            i = i + 1;
        }
        assert forall|k: Seq<char>| #[trigger] self@.contains_key(k) implies !(self@[k] is Playing) by {
            let j = choose|j: int| 0 <= j < self.entries@.len() && self.entries@[j].name@ == k;
            self.lemma_view_at(j);
        };
        false
    }

    /// The full state of the animation `name`, if this node has it.
    pub fn internal_state(&self, name: &str) -> (r: Option<InternalPlaybackState>)
        requires
            self.well_formed(),
        ensures
            r == (if self@.contains_key(name@) { Some(self@[name@]) } else { None }),
    {
        let key = name.to_owned();
        match self.find(&key) {
            Some(i) => {
                proof { self.lemma_view_at(i as int); }
                Some(self.entries[i].state)
            },
            None => None,
        }
    }

    /// The coarse state of the animation `name`, if this node has it.
    pub fn playback_state(&self, name: &str) -> (r: Option<PlaybackState>)
        requires
            self.well_formed(),
        ensures
            r == (if self@.contains_key(name@) { Some(coarse(self@[name@])) } else { None }),
    {
        match self.internal_state(name) {
            Some(s) => Some(PlaybackState::from_internal(&s)),
            None => None,
        }
    }

    /// Starts the animation `name` from its beginning, playing forwards.
    ///
    /// Returns false, changing nothing, when there is no such animation.
    pub fn play_animation(&mut self, name: &str) -> (r: bool)
        requires
            old(self).well_formed(),
        ensures
            final(self).well_formed(),
            r == old(self)@.contains_key(name@),
            final(self)@ == (if r { old(self)@.insert(name@, played()) } else { old(self)@ }),
    {
        let key = name.to_owned();
        match self.find(&key) {
            Some(i) => {
                self.set_at(i, InternalPlaybackState::Playing { progress: Progress::At(0), is_reverse: false });
                true
            },
            None => false,
        }
    }

    /// Stops the animation `name`.
    ///
    /// Returns false, changing nothing, when there is no such animation.
    pub fn stop_animation(&mut self, name: &str) -> (r: bool)
        requires
            old(self).well_formed(),
        ensures
            final(self).well_formed(),
            r == old(self)@.contains_key(name@),
            final(self)@ == (if r {
                old(self)@.insert(name@, InternalPlaybackState::Stopped)
            } else {
                old(self)@
            }),
    {
        let key = name.to_owned();
        match self.find(&key) {
            Some(i) => {
                self.set_at(i, InternalPlaybackState::Stopped);
                true
            },
            None => false,
        }
    }

    /// Pauses the animation `name` if it is playing.
    ///
    /// Returns false, changing nothing, when there is no such animation.
    pub fn pause_animation(&mut self, name: &str) -> (r: bool)
        requires
            old(self).well_formed(),
        ensures
            final(self).well_formed(),
            r == old(self)@.contains_key(name@),
            final(self)@ == (if r { old(self)@.insert(name@, paused(old(self)@[name@])) } else { old(self)@ }),
    {
        let key = name.to_owned();
        match self.find(&key) {
            Some(i) => {
                proof { self.lemma_view_at(i as int); }
                let s = pause_one(self.entries[i].state);
                self.set_at(i, s);
                true
            },
            None => false,
        }
    }

    /// Resumes the animation `name` if it is paused.
    ///
    /// Returns false, changing nothing, when there is no such animation.
    pub fn resume_animation(&mut self, name: &str) -> (r: bool)
        requires
            old(self).well_formed(),
        ensures
            final(self).well_formed(),
            r == old(self)@.contains_key(name@),
            final(self)@ == (if r { old(self)@.insert(name@, resumed(old(self)@[name@])) } else { old(self)@ }),
    {
        let key = name.to_owned();
        match self.find(&key) {
            Some(i) => {
                proof { self.lemma_view_at(i as int); }
                let s = resume_one(self.entries[i].state);
                self.set_at(i, s);
                true
            },
            None => false,
        }
    }

    /// Flips the direction of the animation `name` if it is playing or paused.
    ///
    /// Returns false, changing nothing, when there is no such animation.
    pub fn reverse_animation(&mut self, name: &str) -> (r: bool)
        requires
            old(self).well_formed(),
        ensures
            final(self).well_formed(),
            r == old(self)@.contains_key(name@),
            final(self)@ == (if r { old(self)@.insert(name@, reversed(old(self)@[name@])) } else { old(self)@ }),
    {
        let key = name.to_owned();
        match self.find(&key) {
            Some(i) => {
                proof { self.lemma_view_at(i as int); }
                let s = reverse_one(self.entries[i].state);
                self.set_at(i, s);
                true
            },
            None => false,
        }
    }

    /// Flips the direction of the animation `name`, or plays it backwards from
    /// its end if it is stopped.
    ///
    /// Returns false, changing nothing, when there is no such animation.
    pub fn play_or_reverse_animation(&mut self, name: &str) -> (r: bool)
        requires
            old(self).well_formed(),
        ensures
            final(self).well_formed(),
            r == old(self)@.contains_key(name@),
            final(self)@ == (if r {
                old(self)@.insert(name@, played_or_reversed(old(self)@[name@]))
            } else {
                old(self)@
            }),
    {
        let key = name.to_owned();
        match self.find(&key) {
            Some(i) => {
                proof { self.lemma_view_at(i as int); }
                let s = play_or_reverse_one(self.entries[i].state);
                self.set_at(i, s);
                true
            },
            None => false,
        }
    }

    /// Pauses every playing animation.
    pub fn pause_all_animations(&mut self)
        requires
            old(self).well_formed(),
        ensures
            final(self).well_formed(),
            final(self)@.dom() == old(self)@.dom(),
            forall|k: Seq<char>| #[trigger] final(self)@.contains_key(k)
                ==> final(self)@[k] == paused(old(self)@[k]),
    {
        let ghost before = *self;
        let mut i: usize = 0;
        while i < self.entries.len()
            invariant
                self.well_formed(),
                before.well_formed(),
                i <= self.entries@.len(),
                self.entries@.len() == before.entries@.len(),
                forall|j: int| 0 <= j < self.entries@.len() ==>
                    (#[trigger] self.entries@[j]).name@ == before.entries@[j].name@,
                forall|j: int| 0 <= j < i ==>
                    (#[trigger] self.entries@[j]).state == paused(before.entries@[j].state),
                forall|j: int| i <= j < self.entries@.len() ==>
                    (#[trigger] self.entries@[j]).state == before.entries@[j].state,
            decreases self.entries@.len() - i,
        {
            let s = pause_one(self.entries[i].state);
            let name = self.entries[i].name.clone();
            self.entries.set(i, PlaybackEntry { name, state: s });
            i = i + 1;
        }
        proof { self.lemma_same_names_dom(&before); }
        assert forall|k: Seq<char>| #[trigger] self@.contains_key(k)
            implies self@[k] == paused(before@[k]) by {
            let j = choose|j: int| 0 <= j < self.entries@.len() && self.entries@[j].name@ == k;
            self.lemma_view_at(j);
            before.lemma_view_at(j);
        };
    }

    /// Resumes every paused animation.
    pub fn resume_all_animations(&mut self)
        requires
            old(self).well_formed(),
        ensures
            final(self).well_formed(),
            final(self)@.dom() == old(self)@.dom(),
            forall|k: Seq<char>| #[trigger] final(self)@.contains_key(k)
                ==> final(self)@[k] == resumed(old(self)@[k]),
    {
        let ghost before = *self;
        let mut i: usize = 0;
        while i < self.entries.len()
            invariant
                self.well_formed(),
                before.well_formed(),
                i <= self.entries@.len(),
                self.entries@.len() == before.entries@.len(),
                forall|j: int| 0 <= j < self.entries@.len() ==>
                    (#[trigger] self.entries@[j]).name@ == before.entries@[j].name@,
                forall|j: int| 0 <= j < i ==>
                    (#[trigger] self.entries@[j]).state == resumed(before.entries@[j].state),
                forall|j: int| i <= j < self.entries@.len() ==>
                    (#[trigger] self.entries@[j]).state == before.entries@[j].state,
            decreases self.entries@.len() - i,
        {
            let s = resume_one(self.entries[i].state);
            let name = self.entries[i].name.clone();
            self.entries.set(i, PlaybackEntry { name, state: s });
            i = i + 1;
        }
        proof { self.lemma_same_names_dom(&before); }
        assert forall|k: Seq<char>| #[trigger] self@.contains_key(k)
            implies self@[k] == resumed(before@[k]) by {
            let j = choose|j: int| 0 <= j < self.entries@.len() && self.entries@[j].name@ == k;
            self.lemma_view_at(j);
            before.lemma_view_at(j);
        };
    }

    proof fn lemma_same_names_dom(&self, other: &Self)
        requires
            self.entries@.len() == other.entries@.len(),
            forall|j: int| 0 <= j < self.entries@.len() ==>
                (#[trigger] self.entries@[j]).name@ == other.entries@[j].name@,
        ensures
            self@.dom() == other@.dom(),
    {
        assert forall|k: Seq<char>| self@.contains_key(k) <==> other@.contains_key(k) by {
            if self@.contains_key(k) {
                let j = choose|j: int| 0 <= j < self.entries@.len() && self.entries@[j].name@ == k;
                assert(other.entries@[j].name@ == k);
            }
            if other@.contains_key(k) {
                let j = choose|j: int| 0 <= j < other.entries@.len() && other.entries@[j].name@ == k;
                assert(self.entries@[j].name@ == k);
            }
        };
        assert(self@.dom() =~= other@.dom());
    }

    /// Advances the animation `name` by one frame of `delta_ms` milliseconds,
    /// if it is playing, and samples `animation` at its new position.
    ///
    /// Played forwards, the animation stops once every channel has reached its
    /// last keyframe; played in reverse, once it reaches 0.
    pub fn update_animation<V>(&mut self, name: &str, delta_ms: usize, animation: &LayoutAnimation<V>)
        -> (r: Option<AnimationFrame>)
        requires
            old(self).well_formed(),
            animation.well_formed(),
        ensures
            final(self).well_formed(),
            r is Some <==> (old(self)@.contains_key(name@) && old(self)@[name@] is Playing),
            r is None ==> final(self)@ == old(self)@,
            old(self)@.contains_key(name@) ==> final(self)@ == old(self)@.insert(
                name@,
                stepped(old(self)@[name@], *animation, delta_ms as int),
            ),
            match (r, old(self)@[name@]) {
                (Some(f), InternalPlaybackState::Playing { progress, is_reverse }) => {
                    &&& f.progress == advanced(progress, is_reverse, delta_ms as int, animation_length(animation.tracks@))
                    &&& samples_spec(animation.tracks@, f.progress as int, f.samples@)
                    &&& f.finished == (if is_reverse {
                        f.progress == 0
                    } else {
                        all_channels_done(animation.tracks@, f.progress as int)
                    })
                },
                _ => true,
            },
    {
        let key = name.to_owned();
        match self.find(&key) {
            None => None,
            Some(i) => {
                proof { self.lemma_view_at(i as int); }
                match self.entries[i].state {
                    InternalPlaybackState::Playing { progress, is_reverse } => {
                        let len = animation.max_length();
                        let t = advance_progress(progress, is_reverse, delta_ms, len);
                        let (samples, all_end) = animation.sample(t);
                        proof { lemma_reached_end_iff_done(animation.tracks@, t as int, samples@); }
                        let finished = if is_reverse { t == 0 } else { all_end };
                        if finished {
                            self.set_at(i, InternalPlaybackState::Stopped);
                        } else {
                            self.set_at(i, InternalPlaybackState::Playing { progress: Progress::At(t), is_reverse });
                        }
                        Some(AnimationFrame { progress: t, samples, finished })
                    },
                    _ => None,
                }
            },
        }
    }
}

} // verus!
