use vstd::prelude::*;

use crate::text::{decimal, format_decimal};

verus! {

/// A point or a length on the timeline, in microseconds.
pub type Time = i64;

pub type ClipId = u64;

#[derive(Debug, Clone, Copy, PartialEq, Eq)]
pub enum TrackKind {
    Video,
    Audio,
}

#[derive(Debug)]
pub struct Clip {
    pub id: ClipId,
    pub source_path: String,
    pub name: String,
    pub start: Time,
    pub duration: Time,
    pub source_in: Time,
    pub track_index: usize,
}

impl Clone for Clip {
    fn clone(&self) -> (r: Self)
        ensures
            r == *self,
    {
        Clip {
            id: self.id,
            source_path: self.source_path.clone(),
            name: self.name.clone(),
            start: self.start,
            duration: self.duration,
            source_in: self.source_in,
            track_index: self.track_index,
        }
    }
}

/// A time sum clamped to the range of `Time`: a sum past either end of the
/// range stays at that end.
pub open spec fn clamp_time(t: int) -> int {
    if t > i64::MAX {
        i64::MAX as int
    } else if t < i64::MIN {
        i64::MIN as int
    } else {
        t
    }
}

/// Where a clip ends on the timeline.
pub open spec fn clip_end(c: Clip) -> int {
    clamp_time(c.start + c.duration)
}

/// Where a clip ends in its source media.
pub open spec fn clip_source_end(c: Clip) -> int {
    clamp_time(c.source_in + c.duration)
}

pub open spec fn max_int(a: int, b: int) -> int {
    if a >= b {
        a
    } else {
        b
    }
}

/// The latest end among `clips`, and 0 when no clip ends after 0.
pub open spec fn clips_duration(clips: Seq<Clip>) -> int
    decreases clips.len(),
{
    if clips.len() == 0 {
        0
    } else {
        max_int(clips_duration(clips.drop_last()), clip_end(clips.last()))
    }
}

/// The latest end among the clips of all `tracks`, and 0 when no clip ends after 0.
pub open spec fn tracks_duration(tracks: Seq<TrackView>) -> int
    decreases tracks.len(),
{
    if tracks.len() == 0 {
        0
    } else {
        max_int(tracks_duration(tracks.drop_last()), clips_duration(tracks.last().clips))
    }
}

fn clamped_add(a: Time, b: Time) -> (r: Time)
    ensures
        r == clamp_time(a + b),
{
    match a.checked_add(b) {
        Some(s) => s,
        None => {
            if b > 0 {
                i64::MAX
            } else {
                i64::MIN
            }
        },
    }
}

impl Clip {
    pub fn end(&self) -> (r: Time)
        ensures
            r == clip_end(*self),
    {
        clamped_add(self.start, self.duration)
    }

    pub fn source_end(&self) -> (r: Time)
        ensures
            r == clip_source_end(*self),
    {
        clamped_add(self.source_in, self.duration)
    }
}

pub struct TrackView {
    pub kind: TrackKind,
    pub name: Seq<char>,
    pub clips: Seq<Clip>,
}

#[derive(Debug)]
pub struct Track {
    pub kind: TrackKind,
    pub name: String,
    pub clips: Vec<Clip>,
}

impl View for Track {
    type V = TrackView;

    open spec fn view(&self) -> TrackView {
        TrackView { kind: self.kind, name: self.name@, clips: self.clips@ }
    }
}

pub open spec fn track_views(tracks: Seq<Track>) -> Seq<TrackView> {
    tracks.map_values(|t: Track| t@)
}

fn clone_clips(clips: &Vec<Clip>) -> (r: Vec<Clip>)
    ensures
        r@ == clips@,
{
    let mut r: Vec<Clip> = Vec::new();
    let n = clips.len();
    for i in 0..n
        invariant
            n == clips@.len(),
            r@ == clips@.take(i as int),
    {
        r.push(clips[i].clone());
        assert(r@ =~= clips@.take(i + 1));
    }
    assert(clips@.take(n as int) =~= clips@);
    r
}

impl Clone for Track {
    fn clone(&self) -> (r: Self)
        ensures
            r@ == self@,
    {
        Track { kind: self.kind, name: self.name.clone(), clips: clone_clips(&self.clips) }
    }
}

impl Track {
    pub fn new(kind: TrackKind, name: String) -> (r: Self)
        ensures
            r.kind == kind,
            r.name == name,
            r.clips@ == Seq::<Clip>::empty(),
    {
        Track { kind, name, clips: Vec::new() }
    }

    /// The latest end among the track's clips, and 0 when no clip ends after 0.
    pub fn duration(&self) -> (r: Time)
        ensures
            r == clips_duration(self.clips@),
    {
        let mut best: Time = 0;
        let n = self.clips.len();
        for i in 0..n
            invariant
                n == self.clips@.len(),
                best == clips_duration(self.clips@.take(i as int)),
        {
            let e = self.clips[i].end();
            assert(self.clips@.take(i + 1).drop_last() =~= self.clips@.take(i as int));
            if e > best {
                best = e;
            }
        }
        assert(self.clips@.take(n as int) =~= self.clips@);
        best
    }
}

pub struct TimelineView {
    pub video: Seq<TrackView>,
    pub audio: Seq<TrackView>,
    pub duration: int,
}

impl TimelineView {
    /// The video tracks followed by the audio tracks: the order in which a
    /// track index counts them.
    pub open spec fn tracks(self) -> Seq<TrackView> {
        self.video + self.audio
    }

    /// What the duration is once it has been recalculated from the clips.
    pub open spec fn computed_duration(self) -> int {
        tracks_duration(self.tracks())
    }

    pub open spec fn recalculated(self) -> TimelineView {
        TimelineView { duration: self.computed_duration(), ..self }
    }

    /// The timeline with the track at `index` (counted as in `tracks`)
    /// replaced by `t`.
    pub open spec fn with_track(self, index: int, t: TrackView) -> TimelineView {
        if index < self.video.len() {
            TimelineView { video: self.video.update(index, t), ..self }
        } else {
            TimelineView { audio: self.audio.update(index - self.video.len(), t), ..self }
        }
    }

    /// The timeline with the clips of the track at `index` (counted as in
    /// `tracks`) replaced by `clips`.
    pub open spec fn with_track_clips(self, index: int, clips: Seq<Clip>) -> TimelineView {
        self.with_track(index, TrackView { clips, ..self.tracks()[index] })
    }
}

#[derive(Debug)]
pub struct Timeline {
    pub video_tracks: Vec<Track>,
    pub audio_tracks: Vec<Track>,
    pub duration: Time,
}

impl View for Timeline {
    type V = TimelineView;

    open spec fn view(&self) -> TimelineView {
        TimelineView {
            video: track_views(self.video_tracks@),
            audio: track_views(self.audio_tracks@),
            duration: self.duration as int,
        }
    }
}

fn clone_tracks(tracks: &Vec<Track>) -> (r: Vec<Track>)
    ensures
        track_views(r@) == track_views(tracks@),
{
    let mut r: Vec<Track> = Vec::new();
    let n = tracks.len();
    for i in 0..n
        invariant
            n == tracks@.len(),
            r@.len() == i,
            forall|j: int| 0 <= j < i ==> #[trigger] r@[j]@ == tracks@[j]@,
    {
        r.push(tracks[i].clone());
    }
    assert(track_views(r@) =~= track_views(tracks@));
    r
}

impl Clone for Timeline {
    fn clone(&self) -> (r: Self)
        ensures
            r@ == self@,
    {
        Timeline {
            video_tracks: clone_tracks(&self.video_tracks),
            audio_tracks: clone_tracks(&self.audio_tracks),
            duration: self.duration,
        }
    }
}

/// The name that a new track gets: its letter followed by its number,
/// counted from 1.
pub open spec fn track_name(letter: char, number: nat) -> Seq<char> {
    seq![letter] + decimal(number)
}

/// A new timeline: one empty video track "V1" and one empty audio track "A1".
pub open spec fn initial_timeline() -> TimelineView {
    TimelineView {
        video: seq![TrackView { kind: TrackKind::Video, name: track_name('V', 1), clips: seq![] }],
        audio: seq![TrackView { kind: TrackKind::Audio, name: track_name('A', 1), clips: seq![] }],
        duration: 0,
    }
}

fn make_track_name(letter: &str, number: usize) -> (r: String)
    ensures
        r@ == letter@ + decimal(number as nat),
{
    let mut name = String::from_str(letter);
    let digits = format_decimal(number as u64);
    name.append(digits.as_str());
    name
}

proof fn lemma_tracks_duration_nonneg(tracks: Seq<TrackView>)
    ensures
        tracks_duration(tracks) >= 0,
    decreases tracks.len(),
{
    if tracks.len() > 0 {
        lemma_tracks_duration_nonneg(tracks.drop_last());
    }
}

/// The duration of tracks laid end to end is the larger of the two durations.
proof fn lemma_tracks_duration_concat(a: Seq<TrackView>, b: Seq<TrackView>)
    ensures
        tracks_duration(a + b) == max_int(tracks_duration(a), tracks_duration(b)),
    decreases b.len(),
{
    lemma_tracks_duration_nonneg(a);
    if b.len() == 0 {
        assert(a + b =~= a);
    } else {
        lemma_tracks_duration_concat(a, b.drop_last());
        assert((a + b).drop_last() =~= a + b.drop_last());
        assert((a + b).last() == b.last());
    }
}

fn tracks_max_duration(tracks: &Vec<Track>) -> (r: Time)
    ensures
        r == tracks_duration(track_views(tracks@)),
{
    let mut best: Time = 0;
    let n = tracks.len();
    for i in 0..n
        invariant
            n == tracks@.len(),
            best == tracks_duration(track_views(tracks@.take(i as int))),
    {
        let d = tracks[i].duration();
        assert(track_views(tracks@.take(i + 1)).drop_last() =~= track_views(
            tracks@.take(i as int),
        ));
        if d > best {
            best = d;
        }
    }
    assert(tracks@.take(n as int) =~= tracks@);
    best
}

impl Timeline {
    /// One empty video track "V1", one empty audio track "A1", duration 0.
    pub fn new() -> (r: Self)
        ensures
            r@ == initial_timeline(),
    {
        proof {
            reveal_strlit("V");
            reveal_strlit("A");
        }
        let v1 = Track::new(TrackKind::Video, make_track_name("V", 1));
        let a1 = Track::new(TrackKind::Audio, make_track_name("A", 1));
        assert("V"@ =~= seq!['V']);
        assert("A"@ =~= seq!['A']);
        assert(v1@ =~= initial_timeline().video[0]);
        assert(a1@ =~= initial_timeline().audio[0]);
        let mut video_tracks: Vec<Track> = Vec::new();
        video_tracks.push(v1);
        let mut audio_tracks: Vec<Track> = Vec::new();
        audio_tracks.push(a1);
        let r = Timeline { video_tracks, audio_tracks, duration: 0 };
        assert(r@.video =~= initial_timeline().video);
        assert(r@.audio =~= initial_timeline().audio);
        r
    }

    /// The video tracks followed by the audio tracks.
    pub fn all_tracks(&self) -> (r: Vec<&Track>)
        ensures
            r@.len() == self@.tracks().len(),
            forall|i: int| 0 <= i < r@.len() ==> #[trigger] r@[i]@ == self@.tracks()[i],
    {
        let mut r: Vec<&Track> = Vec::new();
        let nv = self.video_tracks.len();
        for i in 0..nv
            invariant
                nv == self.video_tracks@.len(),
                r@.len() == i,
                forall|j: int| 0 <= j < i ==> #[trigger] r@[j]@ == self.video_tracks@[j]@,
        {
            r.push(&self.video_tracks[i]);
        }
        let na = self.audio_tracks.len();
        for i in 0..na
            invariant
                nv == self.video_tracks@.len(),
                na == self.audio_tracks@.len(),
                r@.len() == nv + i,
                forall|j: int| 0 <= j < nv ==> #[trigger] r@[j]@ == self.video_tracks@[j]@,
                forall|j: int| nv <= j < nv + i ==> #[trigger] r@[j]@ == self.audio_tracks@[j - nv]@,
        {
            r.push(&self.audio_tracks[i]);
        }
        r
    }

    /// Appends a video track named after its number and returns its index.
    pub fn add_video_track(&mut self) -> (r: usize)
        requires
            old(self).video_tracks@.len() < usize::MAX,
        ensures
            r == old(self)@.video.len(),
            final(self)@ == (TimelineView {
                video: old(self)@.video.push(
                    TrackView { kind: TrackKind::Video, name: track_name('V', r as nat + 1), clips: seq![] },
                ),
                ..old(self)@
            }),
    {
        let idx = self.video_tracks.len() + 1;
        proof {
            reveal_strlit("V");
        }
        let track = Track::new(TrackKind::Video, make_track_name("V", idx));
        assert("V"@ =~= seq!['V']);
        assert(track@ =~= (TrackView { kind: TrackKind::Video, name: track_name('V', idx as nat), clips: seq![] }));
        self.video_tracks.push(track);
        let r = self.video_tracks.len() - 1;
        assert(self@.video =~= old(self)@.video.push(
            TrackView { kind: TrackKind::Video, name: track_name('V', r as nat + 1), clips: seq![] },
        ));
        r
    }

    /// Appends an audio track named after its number and returns its index
    /// among the audio tracks.
    pub fn add_audio_track(&mut self) -> (r: usize)
        requires
            old(self).audio_tracks@.len() < usize::MAX,
        ensures
            r == old(self)@.audio.len(),
            final(self)@ == (TimelineView {
                audio: old(self)@.audio.push(
                    TrackView { kind: TrackKind::Audio, name: track_name('A', r as nat + 1), clips: seq![] },
                ),
                ..old(self)@
            }),
    {
        let idx = self.audio_tracks.len() + 1;
        proof {
            reveal_strlit("A");
        }
        let track = Track::new(TrackKind::Audio, make_track_name("A", idx));
        assert("A"@ =~= seq!['A']);
        assert(track@ =~= (TrackView { kind: TrackKind::Audio, name: track_name('A', idx as nat), clips: seq![] }));
        self.audio_tracks.push(track);
        let r = self.audio_tracks.len() - 1;
        assert(self@.audio =~= old(self)@.audio.push(
            TrackView { kind: TrackKind::Audio, name: track_name('A', r as nat + 1), clips: seq![] },
        ));
        r
    }

    /// Sets the duration to the latest end among all clips of all tracks
    /// (0 when no clip ends after 0).
    pub fn recalculate_duration(&mut self)
        ensures
            final(self)@ == old(self)@.recalculated(),
    {
        let v = tracks_max_duration(&self.video_tracks);
        let a = tracks_max_duration(&self.audio_tracks);
        proof {
            lemma_tracks_duration_concat(self@.video, self@.audio);
        }
        self.duration = if v >= a {
            v
        } else {
            a
        };
    }
}

impl Default for Timeline {
    fn default() -> (r: Self)
        ensures
            r@ == initial_timeline(),
    {
        Timeline::new()
    }
}

/// A clip ends at its start plus its duration, and its source part ends at
/// its in point plus its duration, each held to the range of `Time`: a sum
/// in range is kept, one past an end of the range stays at that end.
pub proof fn lemma_clip_ends(c: Clip)
    ensures
        i64::MIN <= c.start + c.duration <= i64::MAX ==> clip_end(c) == c.start + c.duration,
        c.start + c.duration > i64::MAX ==> clip_end(c) == i64::MAX,
        c.start + c.duration < i64::MIN ==> clip_end(c) == i64::MIN,
        i64::MIN <= c.source_in + c.duration <= i64::MAX ==> clip_source_end(c) == c.source_in + c.duration,
        c.source_in + c.duration > i64::MAX ==> clip_source_end(c) == i64::MAX,
        c.source_in + c.duration < i64::MIN ==> clip_source_end(c) == i64::MIN,
{
}

} // verus!

verus! {

/// Whether `(i, k)` names a clip: the `k`-th clip of the `i`-th track.
pub open spec fn is_clip_position(tracks: Seq<TrackView>, i: int, k: int) -> bool {
    0 <= i < tracks.len() && 0 <= k < tracks[i].clips.len()
}

/// Whether some track in `tracks` holds the clip `c`.
pub open spec fn holds_clip(tracks: Seq<TrackView>, c: Clip) -> bool {
    exists|i: int, k: int| is_clip_position(tracks, i, k) && #[trigger] tracks[i].clips[k] == c
}

proof fn lemma_clips_duration_is_latest_end(clips: Seq<Clip>)
    ensures
        clips_duration(clips) >= 0,
        forall|k: int| 0 <= k < clips.len() ==> clip_end(#[trigger] clips[k]) <= clips_duration(clips),
        clips_duration(clips) == 0 || exists|k: int|
            0 <= k < clips.len() && clip_end(#[trigger] clips[k]) == clips_duration(clips),
    decreases clips.len(),
{
    if clips.len() > 0 {
        let init = clips.drop_last();
        lemma_clips_duration_is_latest_end(init);
        assert forall|k: int| 0 <= k < clips.len() implies clip_end(#[trigger] clips[k])
            <= clips_duration(clips) by {
            if k < clips.len() - 1 {
                assert(clips[k] == init[k]);
            }
        }
        if clips_duration(clips) != 0 {
            if clips_duration(clips) == clip_end(clips.last()) {
                assert(clip_end(clips[clips.len() - 1]) == clips_duration(clips));
            } else {
                let k = choose|k: int| 0 <= k < init.len() && clip_end(#[trigger] init[k]) == clips_duration(init);
                assert(clips[k] == init[k]);
            }
        }
    }
}

/// The duration of tracks is the latest end among all their clips, or 0 when
/// no clip ends after 0: it is at least 0, no clip ends after it, and unless
/// it is 0 some clip ends exactly there.
pub proof fn lemma_duration_is_latest_end(tracks: Seq<TrackView>)
    ensures
        tracks_duration(tracks) >= 0,
        forall|i: int, k: int| #[trigger] is_clip_position(tracks, i, k) ==> clip_end(tracks[i].clips[k])
            <= tracks_duration(tracks),
        tracks_duration(tracks) == 0 || exists|i: int, k: int|
            is_clip_position(tracks, i, k) && clip_end(#[trigger] tracks[i].clips[k]) == tracks_duration(tracks),
    decreases tracks.len(),
{
    if tracks.len() > 0 {
        let init = tracks.drop_last();
        let last = tracks.len() - 1;
        lemma_duration_is_latest_end(init);
        lemma_clips_duration_is_latest_end(tracks.last().clips);
        assert forall|i: int, k: int| #[trigger] is_clip_position(tracks, i, k) implies clip_end(
            tracks[i].clips[k],
        ) <= tracks_duration(tracks) by {
            if i < last {
                assert(tracks[i] == init[i]);
                assert(is_clip_position(init, i, k));
            } else {
                assert(tracks[i] == tracks.last());
                assert(clip_end(tracks.last().clips[k]) <= clips_duration(tracks.last().clips));
            }
        }
        if tracks_duration(tracks) != 0 {
            if tracks_duration(tracks) == clips_duration(tracks.last().clips) {
                let k = choose|k: int|
                    0 <= k < tracks.last().clips.len() && clip_end(#[trigger] tracks.last().clips[k])
                        == clips_duration(tracks.last().clips);
                assert(tracks[last] == tracks.last());
                assert(is_clip_position(tracks, last, k));
                assert(clip_end(tracks[last].clips[k]) == tracks_duration(tracks));
            } else {
                let (i, k) = choose|i: int, k: int|
                    is_clip_position(init, i, k) && clip_end(#[trigger] init[i].clips[k]) == tracks_duration(init);
                assert(tracks[i] == init[i]);
                assert(is_clip_position(tracks, i, k));
                assert(clip_end(tracks[i].clips[k]) == tracks_duration(tracks));
            }
        }
    }
}

/// Tracks that hold the same clips, wherever they hold them, have the same
/// duration.
pub proof fn lemma_same_clips_same_duration(a: Seq<TrackView>, b: Seq<TrackView>)
    requires
        forall|c: Clip| holds_clip(a, c) ==> holds_clip(b, c),
        forall|c: Clip| holds_clip(b, c) ==> holds_clip(a, c),
    ensures
        tracks_duration(a) == tracks_duration(b),
{
    lemma_duration_is_latest_end(a);
    lemma_duration_is_latest_end(b);
    if tracks_duration(a) != 0 {
        let (i, k) = choose|i: int, k: int|
            is_clip_position(a, i, k) && clip_end(#[trigger] a[i].clips[k]) == tracks_duration(a);
        assert(holds_clip(a, a[i].clips[k]));
        let (j, m) = choose|j: int, m: int| is_clip_position(b, j, m) && #[trigger] b[j].clips[m] == a[i].clips[k];
        assert(tracks_duration(a) <= tracks_duration(b));
    }
    if tracks_duration(b) != 0 {
        let (i, k) = choose|i: int, k: int|
            is_clip_position(b, i, k) && clip_end(#[trigger] b[i].clips[k]) == tracks_duration(b);
        assert(holds_clip(b, b[i].clips[k]));
        let (j, m) = choose|j: int, m: int| is_clip_position(a, j, m) && #[trigger] a[j].clips[m] == b[i].clips[k];
        assert(tracks_duration(b) <= tracks_duration(a));
    }
}

/// Replacing a track keeps the order in which `tracks` counts the tracks.
pub proof fn lemma_with_track_tracks(v: TimelineView, index: int, t: TrackView)
    requires
        0 <= index < v.tracks().len(),
    ensures
        v.with_track(index, t).tracks() == v.tracks().update(index, t),
        v.with_track(index, t).video.len() == v.video.len(),
{
    assert(v.with_track(index, t).tracks() =~= v.tracks().update(index, t));
}

} // verus!
