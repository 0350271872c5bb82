use vstd::prelude::*;

use crate::timeline::{
    Clip, ClipId, Timeline, TimelineView, Track, TrackView, holds_clip, is_clip_position,
    lemma_same_clips_same_duration, lemma_with_track_tracks, lemma_duration_is_latest_end, clip_end, max_int,
    tracks_duration,
};

verus! {

broadcast use vstd::seq_lib::group_seq_properties;

pub type CommandResult = Result<(), String>;

/// An edit of a timeline that can be taken back. Each command says, over
/// the timeline's view, when `execute` and `undo` succeed and what they
/// leave; where one fails, the timeline is left as it was.
pub trait TimelineCommand {
    /// The name that `name` gives.
    spec fn label(&self) -> Seq<char>;

    /// Whether `execute` succeeds on a timeline `v`.
    spec fn applies_to(&self, v: TimelineView) -> bool;

    /// The timeline that a successful `execute` leaves of `v`.
    spec fn applied(&self, v: TimelineView) -> TimelineView;

    /// Whether `undo` succeeds on a timeline `v`.
    spec fn reverts_on(&self, v: TimelineView) -> bool;

    /// The timeline that a successful `undo` leaves of `v`.
    spec fn reverted(&self, v: TimelineView) -> TimelineView;

    fn name(&self) -> (r: &str)
        ensures
            r@ == self.label(),
    ;

    fn execute(&mut self, timeline: &mut Timeline) -> (r: CommandResult)
        ensures
            old(self).applies_to(old(timeline)@) ==> r is Ok && final(timeline)@ == old(self).applied(
                old(timeline)@,
            ),
            !old(self).applies_to(old(timeline)@) ==> r is Err && final(timeline)@ == old(timeline)@,
    ;

    fn undo(&self, timeline: &mut Timeline) -> (r: CommandResult)
        ensures
            self.reverts_on(old(timeline)@) ==> r is Ok && final(timeline)@ == self.reverted(old(timeline)@),
            !self.reverts_on(old(timeline)@) ==> r is Err && final(timeline)@ == old(timeline)@,
    ;
}

/// Whether `index` names a track: the video tracks are counted first, then
/// the audio tracks.
pub open spec fn is_track_index(v: TimelineView, index: int) -> bool {
    0 <= index < v.tracks().len()
}

/// Whether some clip in `clips` has the id `id`.
pub open spec fn has_clip(clips: Seq<Clip>, id: ClipId) -> bool {
    exists|k: int| 0 <= k < clips.len() && #[trigger] clips[k].id == id
}

/// `k` is the position of the first clip in `clips` with the id `id`.
pub open spec fn is_first_clip(clips: Seq<Clip>, id: ClipId, k: int) -> bool {
    &&& 0 <= k < clips.len()
    &&& clips[k].id == id
    &&& forall|m: int| 0 <= m < k ==> #[trigger] clips[m].id != id
}

/// `i` is the index of the first track, video tracks first, that holds a
/// clip with the id `id`.
pub open spec fn is_first_track(tracks: Seq<TrackView>, id: ClipId, i: int) -> bool {
    &&& 0 <= i < tracks.len()
    &&& has_clip(tracks[i].clips, id)
    &&& forall|j: int| 0 <= j < i ==> !has_clip(#[trigger] tracks[j].clips, id)
}

pub open spec fn first_clip_index(clips: Seq<Clip>, id: ClipId) -> int {
    choose|k: int| is_first_clip(clips, id, k)
}

pub open spec fn first_track_index(tracks: Seq<TrackView>, id: ClipId) -> int {
    choose|i: int| is_first_track(tracks, id, i)
}

/// Whether some track of the timeline holds a clip with the id `id`.
pub open spec fn clip_on_timeline(v: TimelineView, id: ClipId) -> bool {
    exists|i: int| 0 <= i < v.tracks().len() && has_clip(#[trigger] v.tracks()[i].clips, id)
}

/// The timeline with `c` appended to the track that its track index names,
/// and the duration recalculated.
pub open spec fn add_clip_to(v: TimelineView, c: Clip) -> TimelineView {
    let i = c.track_index as int;
    v.with_track_clips(i, v.tracks()[i].clips.push(c)).recalculated()
}

/// The timeline with every clip whose id is `c.id` taken out of the track
/// that `c`'s track index names, and the duration recalculated.
pub open spec fn take_back_clip(v: TimelineView, c: Clip) -> TimelineView {
    let i = c.track_index as int;
    v.with_track_clips(i, v.tracks()[i].clips.filter(id_differs(c.id))).recalculated()
}

/// The clip that removing `id` takes out: the first clip with that id in
/// the first track that holds one.
pub open spec fn clip_to_remove(v: TimelineView, id: ClipId) -> Clip {
    let i = first_track_index(v.tracks(), id);
    v.tracks()[i].clips[first_clip_index(v.tracks()[i].clips, id)]
}

/// The timeline with the clip that `clip_to_remove` names taken out, and the
/// duration recalculated.
pub open spec fn remove_clip_from(v: TimelineView, id: ClipId) -> TimelineView {
    let i = first_track_index(v.tracks(), id);
    let k = first_clip_index(v.tracks()[i].clips, id);
    v.with_track_clips(i, v.tracks()[i].clips.remove(k)).recalculated()
}

proof fn lemma_first_clip_unique(clips: Seq<Clip>, id: ClipId, k: int)
    requires
        is_first_clip(clips, id, k),
    ensures
        first_clip_index(clips, id) == k,
{
    let c = first_clip_index(clips, id);
    assert(is_first_clip(clips, id, c));
    if c < k {
        assert(clips[c].id != id);
    }
    if k < c {
        assert(clips[k].id != id);
    }
}

proof fn lemma_first_track_unique(tracks: Seq<TrackView>, id: ClipId, i: int)
    requires
        is_first_track(tracks, id, i),
    ensures
        first_track_index(tracks, id) == i,
{
    let c = first_track_index(tracks, id);
    assert(is_first_track(tracks, id, c));
    if c < i {
        assert(!has_clip(tracks[c].clips, id));
    }
    if i < c {
        assert(!has_clip(tracks[i].clips, id));
    }
}

/// The track at `track_index`, the video tracks counted first and then the
/// audio tracks; `None` past the last audio track.
pub fn track_mut(timeline: &mut Timeline, track_index: usize) -> (r: Option<&mut Track>)
    ensures
        r is Some <==> is_track_index(old(timeline)@, track_index as int),
        r matches Some(t) ==> t@ == old(timeline)@.tracks()[track_index as int],
        r matches Some(t) ==> replaced_track(*old(timeline), *final(timeline), track_index as int, *final(t)),
        r is None ==> *final(timeline) == *old(timeline),
{
    if track_index < timeline.video_tracks.len() {
        Some(&mut timeline.video_tracks[track_index])
    } else if track_index - timeline.video_tracks.len() < timeline.audio_tracks.len() {
        let i = track_index - timeline.video_tracks.len();
        Some(&mut timeline.audio_tracks[i])
    } else {
        None
    }
}

/// `after` is `before` with the track at `index` (counted as in
/// `TimelineView::tracks`) replaced by `t`.
pub open spec fn replaced_track(before: Timeline, after: Timeline, index: int, t: Track) -> bool {
    let n = before.video_tracks@.len();
    &&& after.duration == before.duration
    &&& index < n ==> after.video_tracks@ == before.video_tracks@.update(index, t)
        && after.audio_tracks@ == before.audio_tracks@
    &&& index >= n ==> after.audio_tracks@ == before.audio_tracks@.update(index - n, t)
        && after.video_tracks@ == before.video_tracks@
}

/// The track that `track_mut` hands out is the only part of the timeline
/// that changes through it.
pub proof fn lemma_replaced_track_view(before: Timeline, after: Timeline, index: int, t: Track)
    requires
        is_track_index(before@, index),
        replaced_track(before, after, index, t),
    ensures
        after@ == before@.with_track(index, t@),
{
    let w = before@.with_track(index, t@);
    assert(after@.video =~= w.video);
    assert(after@.audio =~= w.audio);
}

/// `r` is an error whose message is `message`.
pub open spec fn fails_with(r: CommandResult, message: Seq<char>) -> bool {
    r matches Err(e) && e@ == message
}

fn error(message: &str) -> (r: CommandResult)
    ensures
        fails_with(r, message@),
{
    Err(String::from_str(message))
}

/// Appends a clip to the track that its track index names.
pub struct AddClip {
    pub clip: Clip,
}

impl AddClip {
    /// Whether the clip's track index names a track of the timeline.
    pub open spec fn finds_track(&self, v: TimelineView) -> bool {
        is_track_index(v, self.clip.track_index as int)
    }
}

/// Appends `c` to the clips of the track at `i`.
fn push_to_track(tracks: &mut Vec<Track>, i: usize, c: Clip)
    requires
        i < old(tracks)@.len(),
    ensures
        final(tracks)@.len() == old(tracks)@.len(),
        forall|j: int| 0 <= j < old(tracks)@.len() && j != i ==> #[trigger] final(tracks)@[j] == old(tracks)@[j],
        final(tracks)@[i as int]@ == (TrackView { clips: old(tracks)@[i as int]@.clips.push(c), ..old(tracks)@[i as int]@ }),
{
    let track = &mut tracks[i];
    track.clips.push(c);
}

/// Keeps the clips of the track at `i` whose id differs from `id`, in order.
fn retain_other_ids(tracks: &mut Vec<Track>, i: usize, id: ClipId)
    requires
        i < old(tracks)@.len(),
    ensures
        final(tracks)@.len() == old(tracks)@.len(),
        forall|j: int| 0 <= j < old(tracks)@.len() && j != i ==> #[trigger] final(tracks)@[j] == old(tracks)@[j],
        final(tracks)@[i as int]@ == (TrackView {
            clips: old(tracks)@[i as int]@.clips.filter(id_differs(id)),
            ..old(tracks)@[i as int]@
        }),
{
    let track = &mut tracks[i];
    let mut kept: Vec<Clip> = Vec::new();
    let n = track.clips.len();
    for j in 0..n
        invariant
            n == track.clips@.len(),
            kept@ == track.clips@.take(j as int).filter(id_differs(id)),
    {
        proof {
            assert(track.clips@.take(j + 1) =~= track.clips@.take(j as int).push(track.clips@[j as int]));
            track.clips@.take(j as int).lemma_filter_push(track.clips@[j as int], id_differs(id));
        }
        if track.clips[j].id != id {
            kept.push(track.clips[j].clone());
        }
    }
    proof {
        assert(track.clips@.take(n as int) =~= track.clips@);
    }
    track.clips = kept;
}

/// Whether a clip's id differs from `id`.
pub open spec fn id_differs(id: ClipId) -> spec_fn(Clip) -> bool {
    |x: Clip| x.id != id
}

fn push_clip(timeline: &mut Timeline, clip: Clip) -> (r: CommandResult)
    ensures
        is_track_index(old(timeline)@, clip.track_index as int) ==> r is Ok && final(timeline)@
            == add_clip_to(old(timeline)@, clip),
        !is_track_index(old(timeline)@, clip.track_index as int) ==> fails_with(r, "Track not found"@)
            && final(timeline)@ == old(timeline)@,
{
    let ghost v = timeline@;
    let ghost i = clip.track_index as int;
    let ghost c = clip;
    let idx = clip.track_index;
    let nv = timeline.video_tracks.len();
    if idx < nv {
        assert(v.tracks()[i] == v.video[i]);
        push_to_track(&mut timeline.video_tracks, idx, clip);
    } else if idx - nv < timeline.audio_tracks.len() {
        assert(v.tracks()[i] == v.audio[i - nv]);
        push_to_track(&mut timeline.audio_tracks, idx - nv, clip);
    } else {
        return error("Track not found");
    }
    let ghost w = v.with_track_clips(i, v.tracks()[i].clips.push(c));
    assert(timeline@.video =~= w.video);
    assert(timeline@.audio =~= w.audio);
    assert(timeline@ == w);
    timeline.recalculate_duration();
    Ok(())
}

impl TimelineCommand for AddClip {
    open spec fn label(&self) -> Seq<char> {
        "Add Clip"@
    }

    open spec fn applies_to(&self, v: TimelineView) -> bool {
        self.finds_track(v)
    }

    open spec fn applied(&self, v: TimelineView) -> TimelineView {
        add_clip_to(v, self.clip)
    }

    open spec fn reverts_on(&self, v: TimelineView) -> bool {
        self.finds_track(v)
    }

    open spec fn reverted(&self, v: TimelineView) -> TimelineView {
        take_back_clip(v, self.clip)
    }

    fn name(&self) -> (r: &str)
        ensures
            r@ == "Add Clip"@,
    {
        "Add Clip"
    }

    /// Appends the clip to its track and recalculates the duration; a track
    /// index past the last track is refused and changes nothing.
    fn execute(&mut self, timeline: &mut Timeline) -> (r: CommandResult)
        ensures
            *final(self) == *old(self),
            old(self).finds_track(old(timeline)@) ==> r is Ok && final(timeline)@
                == add_clip_to(old(timeline)@, old(self).clip),
            !old(self).finds_track(old(timeline)@) ==> fails_with(r, "Track not found"@) && final(timeline)@ == old(timeline)@,
    {
        push_clip(timeline, self.clip.clone())
    }

    /// Takes every clip with the clip's id out of the clip's track and
    /// recalculates the duration; a track index past the last track is
    /// refused and changes nothing.
    fn undo(&self, timeline: &mut Timeline) -> (r: CommandResult)
        ensures
            self.finds_track(old(timeline)@) ==> r is Ok && final(timeline)@
                == take_back_clip(old(timeline)@, self.clip),
            !self.finds_track(old(timeline)@) ==> fails_with(r, "Track not found"@) && final(timeline)@ == old(timeline)@,
    {
        let ghost v = timeline@;
        let ghost i = self.clip.track_index as int;
        let id = self.clip.id;
        let idx = self.clip.track_index;
        let nv = timeline.video_tracks.len();
        if idx < nv {
            assert(v.tracks()[i] == v.video[i]);
            retain_other_ids(&mut timeline.video_tracks, idx, id);
        } else if idx - nv < timeline.audio_tracks.len() {
            assert(v.tracks()[i] == v.audio[i - nv]);
            retain_other_ids(&mut timeline.audio_tracks, idx - nv, id);
        } else {
            return error("Track not found");
        }
        let ghost w = v.with_track_clips(i, v.tracks()[i].clips.filter(id_differs(id)));
        assert(timeline@.video =~= w.video);
        assert(timeline@.audio =~= w.audio);
        assert(timeline@ == w);
        timeline.recalculate_duration();
        Ok(())
    }
}

/// Takes a clip off the timeline and keeps it so that `undo` can put it back.
pub struct RemoveClip {
    pub clip_id: ClipId,
    removed_clip: Option<Clip>,
}

impl RemoveClip {
    /// The clip that the last successful `execute` took out.
    pub closed spec fn removed(&self) -> Option<Clip> {
        self.removed_clip
    }

    /// The id of the clip that this command takes out.
    pub closed spec fn target(&self) -> ClipId {
        self.clip_id
    }

    /// The id that the command takes out, its `clip_id`, for verified
    /// callers outside this module (to which Verus does not show the field
    /// of a struct that also has a private one).
    pub fn target_id(&self) -> (r: ClipId)
        ensures
            r == self.target(),
    {
        self.clip_id
    }

    pub fn new(clip_id: ClipId) -> (r: Self)
        ensures
            r.target() == clip_id,
            r.removed() is None,
    {
        RemoveClip { clip_id, removed_clip: None }
    }
}

fn find_clip(clips: &Vec<Clip>, id: ClipId) -> (r: Option<usize>)
    ensures
        r matches Some(k) ==> is_first_clip(clips@, id, k as int),
        r is None ==> !has_clip(clips@, id),
{
    let n = clips.len();
    for k in 0..n
        invariant
            n == clips@.len(),
            forall|m: int| 0 <= m < k ==> #[trigger] clips@[m].id != id,
    {
        if clips[k].id == id {
            return Some(k);
        }
    }
    None
}

fn take_clip(tracks: &mut Vec<Track>, i: usize, k: usize) -> (r: Clip)
    requires
        i < old(tracks)@.len(),
        k < old(tracks)@[i as int].clips@.len(),
    ensures
        r == old(tracks)@[i as int].clips@[k as int],
        final(tracks)@.len() == old(tracks)@.len(),
        forall|j: int| 0 <= j < old(tracks)@.len() && j != i ==> #[trigger] final(tracks)@[j] == old(tracks)@[j],
        final(tracks)@[i as int]@ == (TrackView { clips: old(tracks)@[i as int]@.clips.remove(k as int), ..old(tracks)@[i as int]@ }),
{
    let track = &mut tracks[i];
    track.clips.remove(k)
}

impl TimelineCommand for RemoveClip {
    open spec fn label(&self) -> Seq<char> {
        "Remove Clip"@
    }

    open spec fn applies_to(&self, v: TimelineView) -> bool {
        clip_on_timeline(v, self.target())
    }

    open spec fn applied(&self, v: TimelineView) -> TimelineView {
        remove_clip_from(v, self.target())
    }

    open spec fn reverts_on(&self, v: TimelineView) -> bool {
        self.removed() is Some && is_track_index(v, self.removed()->0.track_index as int)
    }

    open spec fn reverted(&self, v: TimelineView) -> TimelineView {
        add_clip_to(v, self.removed()->0)
    }

    fn name(&self) -> (r: &str)
        ensures
            r@ == "Remove Clip"@,
    {
        "Remove Clip"
    }

    /// Takes out the first clip with the id, searching the video tracks and
    /// then the audio tracks in order, recalculates the duration and keeps
    /// the clip; when no track holds such a clip, nothing changes.
    fn execute(&mut self, timeline: &mut Timeline) -> (r: CommandResult)
        ensures
            final(self).target() == old(self).target(),
            clip_on_timeline(old(timeline)@, old(self).target()) ==> r is Ok && final(timeline)@
                == remove_clip_from(old(timeline)@, old(self).target()) && final(self).removed()
                == Some(clip_to_remove(old(timeline)@, old(self).target())),
            !clip_on_timeline(old(timeline)@, old(self).target()) ==> fails_with(r, "Clip not found"@) && final(timeline)@ == old(timeline)@ && *final(self)
                == *old(self),
    {
        let ghost v = timeline@;
        let id = self.clip_id;
        let nv = timeline.video_tracks.len();
        for i in 0..nv
            invariant
                timeline@ == v,
                v == old(timeline)@,
                nv == v.video.len(),
                *self == *old(self),
                self.clip_id == id,
                forall|j: int| 0 <= j < i ==> !has_clip(#[trigger] v.tracks()[j].clips, id),
        {
            if let Some(k) = find_clip(&timeline.video_tracks[i].clips, id) {
                proof {
                    assert(has_clip(v.tracks()[i as int].clips, id));
                    assert(clip_on_timeline(v, id));
                    lemma_first_track_unique(v.tracks(), id, i as int);
                    lemma_first_clip_unique(v.tracks()[i as int].clips, id, k as int);
                }
                assert(v.tracks()[i as int] == v.video[i as int]);
                let clip = take_clip(&mut timeline.video_tracks, i, k);
                let ghost w = v.with_track_clips(i as int, v.tracks()[i as int].clips.remove(k as int));
                assert(timeline@.video =~= w.video);
                assert(timeline@.audio =~= w.audio);
                assert(timeline@ == w);
                timeline.recalculate_duration();
                self.removed_clip = Some(clip);
                return Ok(());
            }
        }
        let na = timeline.audio_tracks.len();
        for i in 0..na
            invariant
                timeline@ == v,
                v == old(timeline)@,
                nv == v.video.len(),
                na == v.audio.len(),
                *self == *old(self),
                self.clip_id == id,
                forall|j: int| 0 <= j < nv + i ==> !has_clip(#[trigger] v.tracks()[j].clips, id),
        {
            if let Some(k) = find_clip(&timeline.audio_tracks[i].clips, id) {
                let ghost g = nv + i;
                assert(v.tracks()[g] == v.audio[i as int]);
                proof {
                    assert(has_clip(v.tracks()[g].clips, id));
                    assert(clip_on_timeline(v, id));
                    lemma_first_track_unique(v.tracks(), id, g);
                    lemma_first_clip_unique(v.tracks()[g].clips, id, k as int);
                }
                let clip = take_clip(&mut timeline.audio_tracks, i, k);
                let ghost w = v.with_track_clips(g, v.tracks()[g].clips.remove(k as int));
                assert(timeline@.video =~= w.video);
                assert(timeline@.audio =~= w.audio);
                assert(timeline@ == w);
                timeline.recalculate_duration();
                self.removed_clip = Some(clip);
                return Ok(());
            }
        }
        error("Clip not found")
    }

    /// Puts the kept clip back at the end of the track that its track index
    /// names and recalculates the duration; before any successful
    /// `execute`, or when that track does not exist, nothing changes.
    fn undo(&self, timeline: &mut Timeline) -> (r: CommandResult)
        ensures
            self.removed() is None ==> fails_with(r, "No clip to restore"@)
                && final(timeline)@ == old(timeline)@,
            self.removed() is Some && is_track_index(old(timeline)@, self.removed()->0.track_index as int)
                ==> r is Ok && final(timeline)@ == add_clip_to(old(timeline)@, self.removed()->0),
            self.removed() is Some && !is_track_index(old(timeline)@, self.removed()->0.track_index as int)
                ==> fails_with(r, "Track not found"@) && final(timeline)@ == old(timeline)@,
    {
        match &self.removed_clip {
            Some(c) => push_clip(timeline, c.clone()),
            None => error("No clip to restore"),
        }
    }
}

} // verus!

verus! {

/// The tracks with `c` appended to the clips of the track at `j`.
pub open spec fn tracks_with_pushed(tracks: Seq<TrackView>, j: int, c: Clip) -> Seq<TrackView> {
    tracks.update(j, TrackView { clips: tracks[j].clips.push(c), ..tracks[j] })
}

/// The tracks with the `k`-th clip of the track at `t` taken out.
pub open spec fn tracks_with_removed(tracks: Seq<TrackView>, t: int, k: int) -> Seq<TrackView> {
    tracks.update(t, TrackView { clips: tracks[t].clips.remove(k), ..tracks[t] })
}

proof fn lemma_pushed_clips(tracks: Seq<TrackView>, j: int, c: Clip)
    requires
        0 <= j < tracks.len(),
    ensures
        holds_clip(tracks_with_pushed(tracks, j, c), c),
        forall|x: Clip| holds_clip(tracks, x) ==> holds_clip(tracks_with_pushed(tracks, j, c), x),
        forall|x: Clip| holds_clip(tracks_with_pushed(tracks, j, c), x) ==> holds_clip(tracks, x) || x == c,
{
    let w = tracks_with_pushed(tracks, j, c);
    let n = tracks[j].clips.len() as int;
    assert(w[j].clips[n] == c);
    assert(is_clip_position(w, j, n));
    assert forall|x: Clip| holds_clip(tracks, x) implies holds_clip(w, x) by {
        let (i, k) = choose|i: int, k: int| is_clip_position(tracks, i, k) && #[trigger] tracks[i].clips[k] == x;
        assert(w[i].clips[k] == x);
        assert(is_clip_position(w, i, k));
    }
    assert forall|x: Clip| holds_clip(w, x) implies holds_clip(tracks, x) || x == c by {
        let (i, k) = choose|i: int, k: int| is_clip_position(w, i, k) && #[trigger] w[i].clips[k] == x;
        if !(i == j && k == n) {
            assert(tracks[i].clips[k] == x);
            assert(is_clip_position(tracks, i, k));
        }
    }
}

proof fn lemma_removed_clips(tracks: Seq<TrackView>, t: int, k: int)
    requires
        is_clip_position(tracks, t, k),
    ensures
        forall|x: Clip| holds_clip(tracks_with_removed(tracks, t, k), x) ==> holds_clip(tracks, x),
        forall|x: Clip| holds_clip(tracks, x) ==> holds_clip(tracks_with_removed(tracks, t, k), x)
            || x == tracks[t].clips[k],
{
    let w = tracks_with_removed(tracks, t, k);
    assert forall|x: Clip| holds_clip(w, x) implies holds_clip(tracks, x) by {
        let (i, m) = choose|i: int, m: int| is_clip_position(w, i, m) && #[trigger] w[i].clips[m] == x;
        if i == t && m >= k {
            assert(tracks[i].clips[m + 1] == x);
            assert(is_clip_position(tracks, i, m + 1));
        } else {
            assert(tracks[i].clips[m] == x);
            assert(is_clip_position(tracks, i, m));
        }
    }
    assert forall|x: Clip| holds_clip(tracks, x) implies holds_clip(w, x) || x == tracks[t].clips[k] by {
        let (i, m) = choose|i: int, m: int| is_clip_position(tracks, i, m) && #[trigger] tracks[i].clips[m] == x;
        if i == t && m > k {
            assert(w[i].clips[m - 1] == x);
            assert(is_clip_position(w, i, m - 1));
        } else if !(i == t && m == k) {
            assert(w[i].clips[m] == x);
            assert(is_clip_position(w, i, m));
        }
    }
}

proof fn lemma_first_track_exists(tracks: Seq<TrackView>, id: ClipId, i: int)
    requires
        0 <= i < tracks.len(),
        has_clip(tracks[i].clips, id),
    ensures
        is_first_track(tracks, id, first_track_index(tracks, id)),
    decreases i,
{
    if exists|j: int| 0 <= j < i && has_clip(#[trigger] tracks[j].clips, id) {
        let j = choose|j: int| 0 <= j < i && has_clip(#[trigger] tracks[j].clips, id);
        lemma_first_track_exists(tracks, id, j);
    } else {
        assert(is_first_track(tracks, id, i));
    }
}

proof fn lemma_first_clip_exists(clips: Seq<Clip>, id: ClipId, k: int)
    requires
        0 <= k < clips.len(),
        clips[k].id == id,
    ensures
        is_first_clip(clips, id, first_clip_index(clips, id)),
    decreases k,
{
    if exists|j: int| 0 <= j < k && #[trigger] clips[j].id == id {
        let j = choose|j: int| 0 <= j < k && #[trigger] clips[j].id == id;
        lemma_first_clip_exists(clips, id, j);
    } else {
        assert(is_first_clip(clips, id, k));
    }
}

/// The clip that removing `id` takes out has that id and lies on the
/// timeline, in the first track that holds such a clip, before any other
/// clip with that id in that track.
pub proof fn lemma_clip_to_remove(v: TimelineView, id: ClipId)
    requires
        clip_on_timeline(v, id),
    ensures
        is_first_track(v.tracks(), id, first_track_index(v.tracks(), id)),
        is_first_clip(
            v.tracks()[first_track_index(v.tracks(), id)].clips,
            id,
            first_clip_index(v.tracks()[first_track_index(v.tracks(), id)].clips, id),
        ),
        clip_to_remove(v, id).id == id,
{
    let ts = v.tracks();
    let i0 = choose|i: int| 0 <= i < ts.len() && has_clip(#[trigger] ts[i].clips, id);
    lemma_first_track_exists(ts, id, i0);
    let t = first_track_index(ts, id);
    let k0 = choose|k: int| 0 <= k < ts[t].clips.len() && #[trigger] ts[t].clips[k].id == id;
    lemma_first_clip_exists(ts[t].clips, id, k0);
}

/// Undoing an `AddClip` right after it succeeded gives back the timeline it
/// started from, with the duration recalculated, when no clip of the target
/// track had the added clip's id before.
pub proof fn lemma_add_clip_then_undo(v: TimelineView, c: Clip)
    requires
        is_track_index(v, c.track_index as int),
        !has_clip(v.tracks()[c.track_index as int].clips, c.id),
    ensures
        take_back_clip(add_clip_to(v, c), c) == v.recalculated(),
{
    let i = c.track_index as int;
    let s = v.tracks()[i].clips;
    let added = v.with_track_clips(i, s.push(c));
    lemma_with_track_tracks(v, i, TrackView { clips: s.push(c), ..v.tracks()[i] });
    let a = add_clip_to(v, c);
    assert(a.tracks()[i].clips == s.push(c));
    s.lemma_filter_push(c, id_differs(c.id));
    assert(s.filter(id_differs(c.id)) == s) by {
        assert forall|k: int| 0 <= k < s.len() implies id_differs(c.id)(#[trigger] s[k]) by {
            if s[k].id == c.id {
                assert(has_clip(s, c.id));
            }
        }
        lemma_filter_keeps_all(s, id_differs(c.id));
    }
    let back = a.with_track_clips(i, s);
    lemma_with_track_tracks(a, i, TrackView { clips: s, ..a.tracks()[i] });
    assert(back.tracks() =~= v.tracks());
    assert(back.video =~= v.video);
    assert(back.audio =~= v.audio);
}

proof fn lemma_filter_keeps_all(s: Seq<Clip>, pred: spec_fn(Clip) -> bool)
    requires
        forall|k: int| 0 <= k < s.len() ==> pred(#[trigger] s[k]),
    ensures
        s.filter(pred) == s,
    decreases s.len(),
{
    if s.len() > 0 {
        let init = s.drop_last();
        assert forall|k: int| 0 <= k < init.len() implies pred(#[trigger] init[k]) by {
            assert(init[k] == s[k]);
        }
        lemma_filter_keeps_all(init, pred);
        init.lemma_filter_push(s.last(), pred);
        assert(init.push(s.last()) =~= s);
    } else {
        reveal(Seq::filter);
    }
}

/// Undoing a `RemoveClip` right after it succeeded gives the timeline back
/// its duration: the clip is back on the timeline, and the duration is the
/// latest end among the same clips.
pub proof fn lemma_remove_clip_then_undo_duration(v: TimelineView, id: ClipId)
    requires
        clip_on_timeline(v, id),
        is_track_index(v, clip_to_remove(v, id).track_index as int),
    ensures
        add_clip_to(remove_clip_from(v, id), clip_to_remove(v, id)).duration == v.computed_duration(),
{
    lemma_clip_to_remove(v, id);
    let ts = v.tracks();
    let t = first_track_index(ts, id);
    let k = first_clip_index(ts[t].clips, id);
    let c = clip_to_remove(v, id);
    let j = c.track_index as int;
    let removed = remove_clip_from(v, id);
    lemma_with_track_tracks(v, t, TrackView { clips: ts[t].clips.remove(k), ..ts[t] });
    assert(removed.tracks() == tracks_with_removed(ts, t, k));
    lemma_removed_clips(ts, t, k);
    let rs = removed.tracks();
    lemma_with_track_tracks(removed, j, TrackView { clips: rs[j].clips.push(c), ..rs[j] });
    let back = add_clip_to(removed, c);
    assert(back.tracks() == tracks_with_pushed(rs, j, c));
    lemma_pushed_clips(rs, j, c);
    assert(is_clip_position(ts, t, k));
    assert(holds_clip(ts, c));
    lemma_same_clips_same_duration(back.tracks(), ts);
}

/// Undoing a `RemoveClip` right after it succeeded, when the clip lay in the
/// track that its own track index names, puts it back in that track after
/// the clips that followed it; every other track is as it was.
pub proof fn lemma_remove_clip_then_undo_same_track(v: TimelineView, id: ClipId)
    requires
        clip_on_timeline(v, id),
        clip_to_remove(v, id).track_index as int == first_track_index(v.tracks(), id),
    ensures
        ({
            let t = first_track_index(v.tracks(), id);
            let k = first_clip_index(v.tracks()[t].clips, id);
            add_clip_to(remove_clip_from(v, id), clip_to_remove(v, id)) == v.with_track_clips(
                t,
                v.tracks()[t].clips.remove(k).push(clip_to_remove(v, id)),
            ).recalculated()
        }),
{
    lemma_clip_to_remove(v, id);
    let ts = v.tracks();
    let t = first_track_index(ts, id);
    let k = first_clip_index(ts[t].clips, id);
    let c = clip_to_remove(v, id);
    let s = ts[t].clips.remove(k);
    let removed = remove_clip_from(v, id);
    lemma_with_track_tracks(v, t, TrackView { clips: s, ..ts[t] });
    let back = add_clip_to(removed, c);
    let want = v.with_track_clips(t, s.push(c));
    assert(back.video =~= want.video);
    assert(back.audio =~= want.audio);
    lemma_with_track_tracks(v, t, TrackView { clips: s.push(c), ..ts[t] });
    assert(back.computed_duration() == want.computed_duration());
}

/// Adding a clip makes the duration the later of the duration before (as
/// recalculated) and the clip's end.
pub proof fn lemma_add_clip_duration(v: TimelineView, c: Clip)
    requires
        is_track_index(v, c.track_index as int),
    ensures
        add_clip_to(v, c).duration == max_int(v.computed_duration(), clip_end(c)),
{
    let ts = v.tracks();
    let i = c.track_index as int;
    lemma_with_track_tracks(v, i, TrackView { clips: ts[i].clips.push(c), ..ts[i] });
    let after = add_clip_to(v, c).tracks();
    assert(after == tracks_with_pushed(ts, i, c));
    lemma_pushed_clips(ts, i, c);
    lemma_duration_is_latest_end(ts);
    lemma_duration_is_latest_end(after);
    let d_old = tracks_duration(ts);
    let d_new = tracks_duration(after);
    // the added clip and every earlier clip end no later than the new duration
    let (ci, ck) = choose|ci: int, ck: int| is_clip_position(after, ci, ck) && #[trigger] after[ci].clips[ck] == c;
    assert(clip_end(c) <= d_new);
    if d_old != 0 {
        let (oi, ok) = choose|oi: int, ok: int|
            is_clip_position(ts, oi, ok) && clip_end(#[trigger] ts[oi].clips[ok]) == d_old;
        assert(holds_clip(ts, ts[oi].clips[ok]));
        let (ni, nk) = choose|ni: int, nk: int|
            is_clip_position(after, ni, nk) && #[trigger] after[ni].clips[nk] == ts[oi].clips[ok];
        assert(d_old <= d_new);
    }
    // the new duration is 0 or the end of a clip that is either old or the added one
    if d_new != 0 {
        let (ni, nk) = choose|ni: int, nk: int|
            is_clip_position(after, ni, nk) && clip_end(#[trigger] after[ni].clips[nk]) == d_new;
        assert(holds_clip(after, after[ni].clips[nk]));
        if after[ni].clips[nk] != c {
            let (oi, ok) = choose|oi: int, ok: int|
                is_clip_position(ts, oi, ok) && #[trigger] ts[oi].clips[ok] == after[ni].clips[nk];
            assert(d_new <= d_old);
        }
    }
}

/// Removing a clip never makes the duration later than it was (as
/// recalculated).
pub proof fn lemma_remove_clip_duration(v: TimelineView, id: ClipId)
    requires
        clip_on_timeline(v, id),
    ensures
        remove_clip_from(v, id).duration <= v.computed_duration(),
{
    lemma_clip_to_remove(v, id);
    let ts = v.tracks();
    let t = first_track_index(ts, id);
    let k = first_clip_index(ts[t].clips, id);
    lemma_with_track_tracks(v, t, TrackView { clips: ts[t].clips.remove(k), ..ts[t] });
    let after = remove_clip_from(v, id).tracks();
    assert(after == tracks_with_removed(ts, t, k));
    lemma_removed_clips(ts, t, k);
    lemma_duration_is_latest_end(ts);
    lemma_duration_is_latest_end(after);
    if tracks_duration(after) != 0 {
        let (ni, nk) = choose|ni: int, nk: int|
            is_clip_position(after, ni, nk) && clip_end(#[trigger] after[ni].clips[nk]) == tracks_duration(after);
        assert(holds_clip(after, after[ni].clips[nk]));
        let (oi, ok) = choose|oi: int, ok: int|
            is_clip_position(ts, oi, ok) && #[trigger] ts[oi].clips[ok] == after[ni].clips[nk];
    }
}

/// Every command that succeeds leaves the timeline's duration current: it
/// is the latest end among the clips the timeline then holds.
pub proof fn lemma_commands_keep_duration_current(v: TimelineView, c: Clip, id: ClipId)
    ensures
        add_clip_to(v, c).duration == add_clip_to(v, c).computed_duration(),
        take_back_clip(v, c).duration == take_back_clip(v, c).computed_duration(),
        remove_clip_from(v, id).duration == remove_clip_from(v, id).computed_duration(),
{
}

} // verus!
