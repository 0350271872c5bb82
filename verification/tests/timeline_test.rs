use video_editor::timeline::{Clip, Time, Timeline, Track, TrackKind};

fn secs(x: f64) -> Time {
    (x * 1_000_000.0).round() as Time
}

fn in_secs(t: Time) -> f64 {
    t as f64 / 1_000_000.0
}

fn make_clip(id: u64, start: f64, duration: f64, track: usize) -> Clip {
    Clip {
        id,
        source_path: "/test.mp4".into(),
        name: format!("clip_{id}"),
        start: secs(start),
        duration: secs(duration),
        source_in: 0,
        track_index: track,
    }
}

#[test]
fn test_clip_end() {
    let c = make_clip(1, 10.0, 5.0, 0);
    assert!((in_secs(c.end()) - 15.0).abs() < 1e-9);
}

#[test]
fn test_clip_source_end() {
    let c = Clip {
        source_in: secs(2.0),
        duration: secs(5.0),
        ..make_clip(1, 10.0, 5.0, 0)
    };
    assert!((in_secs(c.source_end()) - 7.0).abs() < 1e-9);
}

#[test]
fn test_track_new() {
    let t = Track::new(TrackKind::Video, "V1".into());
    assert!(matches!(t.kind, TrackKind::Video));
    assert_eq!(t.name, "V1");
    assert!(t.clips.is_empty());
}

#[test]
fn test_track_duration_empty() {
    let t = Track::new(TrackKind::Video, "V1".into());
    assert!((in_secs(t.duration()) - 0.0).abs() < 1e-9);
}

#[test]
fn test_track_duration_with_clips() {
    let mut t = Track::new(TrackKind::Video, "V1".into());
    t.clips.push(make_clip(1, 0.0, 10.0, 0));
    t.clips.push(make_clip(2, 15.0, 5.0, 0));
    assert!((in_secs(t.duration()) - 20.0).abs() < 1e-9);
}

#[test]
fn test_timeline_new() {
    let tl = Timeline::new();
    assert_eq!(tl.video_tracks.len(), 1);
    assert_eq!(tl.audio_tracks.len(), 1);
    assert!((in_secs(tl.duration) - 0.0).abs() < 1e-9);
}

#[test]
fn test_timeline_default() {
    let tl = Timeline::default();
    assert_eq!(tl.video_tracks.len(), 1);
    assert_eq!(tl.audio_tracks.len(), 1);
}

#[test]
fn test_all_tracks_yields_all() {
    let tl = Timeline::new();
    let count = tl.all_tracks().len();
    assert_eq!(count, 2);
}

#[test]
fn test_add_video_track() {
    let mut tl = Timeline::new();
    let idx = tl.add_video_track();
    assert_eq!(idx, 1);
    assert_eq!(tl.video_tracks.len(), 2);
    assert_eq!(tl.video_tracks[1].name, "V2");
}

#[test]
fn test_add_audio_track() {
    let mut tl = Timeline::new();
    let idx = tl.add_audio_track();
    assert_eq!(idx, 1);
    assert_eq!(tl.audio_tracks.len(), 2);
    assert_eq!(tl.audio_tracks[1].name, "A2");
}

#[test]
fn test_recalculate_duration_no_clips() {
    let mut tl = Timeline::new();
    tl.recalculate_duration();
    assert!((in_secs(tl.duration) - 0.0).abs() < 1e-9);
}

#[test]
fn test_recalculate_duration_single_track() {
    let mut tl = Timeline::new();
    tl.video_tracks[0].clips.push(make_clip(1, 0.0, 10.0, 0));
    tl.recalculate_duration();
    assert!((in_secs(tl.duration) - 10.0).abs() < 1e-9);
}

#[test]
fn test_recalculate_duration_multi_track() {
    let mut tl = Timeline::new();
    tl.video_tracks[0].clips.push(make_clip(1, 0.0, 10.0, 0));
    tl.audio_tracks[0].clips.push(make_clip(2, 20.0, 15.0, 1));
    tl.recalculate_duration();
    assert!((in_secs(tl.duration) - 35.0).abs() < 1e-9);
}

#[test]
fn new_timeline_names_its_tracks() {
    let tl = Timeline::new();
    assert_eq!(tl.video_tracks[0].name, "V1");
    assert_eq!(tl.audio_tracks[0].name, "A1");
    assert!(matches!(tl.video_tracks[0].kind, TrackKind::Video));
    assert!(matches!(tl.audio_tracks[0].kind, TrackKind::Audio));
}

#[test]
fn added_tracks_are_numbered_in_order() {
    let mut tl = Timeline::new();
    for expected in 1..12usize {
        assert_eq!(tl.add_video_track(), expected);
    }
    assert_eq!(tl.video_tracks[10].name, "V11");
    assert_eq!(tl.video_tracks[11].name, "V12");
    assert_eq!(tl.audio_tracks.len(), 1);
}

#[test]
fn all_tracks_lists_video_before_audio() {
    let mut tl = Timeline::new();
    tl.add_audio_track();
    tl.add_video_track();
    let names: Vec<String> = tl.all_tracks().iter().map(|t| t.name.clone()).collect();
    assert_eq!(names, vec!["V1", "V2", "A1", "A2"]);
}

#[test]
fn duration_ignores_clips_ending_before_zero() {
    let mut t = Track::new(TrackKind::Audio, "A1".into());
    t.clips.push(Clip { start: secs(-10.0), ..make_clip(1, 0.0, 4.0, 0) });
    assert_eq!(t.duration(), 0);
}

#[test]
fn clip_end_stays_at_the_largest_time() {
    let c = Clip { start: i64::MAX - 5, duration: 10, ..make_clip(1, 0.0, 0.0, 0) };
    assert_eq!(c.end(), i64::MAX);
    let d = Clip { start: i64::MIN + 5, duration: -10, ..make_clip(1, 0.0, 0.0, 0) };
    assert_eq!(d.end(), i64::MIN);
}

#[test]
fn duration_is_the_latest_end_over_all_tracks() {
    let mut tl = Timeline::new();
    tl.add_video_track();
    tl.video_tracks[0].clips.push(make_clip(1, 3.0, 2.0, 0));
    tl.video_tracks[1].clips.push(make_clip(2, 1.0, 9.0, 1));
    tl.audio_tracks[0].clips.push(make_clip(3, 4.0, 1.5, 2));
    tl.recalculate_duration();
    assert_eq!(tl.duration, secs(10.0));
    assert_eq!(tl.video_tracks[0].duration(), secs(5.0));
}

#[test]
fn timeline_clone_is_equal() {
    let mut tl = Timeline::new();
    tl.video_tracks[0].clips.push(make_clip(7, 1.0, 2.0, 0));
    tl.recalculate_duration();
    let c = tl.clone();
    assert_eq!(c.video_tracks[0].clips[0].id, 7);
    assert_eq!(c.duration, tl.duration);
    assert_eq!(c.audio_tracks[0].name, "A1");
}
