use video_editor::commands::{track_mut, AddClip, RemoveClip, TimelineCommand};
use video_editor::timeline::{Clip, Time, Timeline, TrackKind};

fn secs(x: f64) -> Time {
    (x * 1_000_000.0).round() as Time
}

fn in_secs(t: Time) -> f64 {
    t as f64 / 1_000_000.0
}

fn make_clip(id: u64, start: f64, duration: f64, track: usize) -> Clip {
    Clip {
        id,
        source_path: "/test.mp4".into(),
        name: format!("clip_{id}"),
        start: secs(start),
        duration: secs(duration),
        source_in: 0,
        track_index: track,
    }
}

#[test]
fn test_add_clip_execute() {
    let mut tl = Timeline::new();
    let clip = make_clip(1, 0.0, 5.0, 0);
    let mut cmd = AddClip { clip };
    assert!(cmd.execute(&mut tl).is_ok());
    assert_eq!(tl.video_tracks[0].clips.len(), 1);
    assert!((in_secs(tl.duration) - 5.0).abs() < 1e-9);
}

#[test]
fn test_add_clip_undo() {
    let mut tl = Timeline::new();
    let clip = make_clip(1, 0.0, 5.0, 0);
    let mut cmd = AddClip { clip };
    cmd.execute(&mut tl).unwrap();
    cmd.undo(&mut tl).unwrap();
    assert!(tl.video_tracks[0].clips.is_empty());
    assert!((in_secs(tl.duration) - 0.0).abs() < 1e-9);
}

#[test]
fn test_add_clip_invalid_track() {
    let mut tl = Timeline::new();
    let clip = make_clip(1, 0.0, 5.0, 99);
    let mut cmd = AddClip { clip };
    assert!(cmd.execute(&mut tl).is_err());
}

#[test]
fn test_add_clip_name() {
    let clip = make_clip(1, 0.0, 5.0, 0);
    let cmd = AddClip { clip };
    assert_eq!(cmd.name(), "Add Clip");
}

#[test]
fn test_remove_clip_execute() {
    let mut tl = Timeline::new();
    let clip = make_clip(1, 0.0, 5.0, 0);
    tl.video_tracks[0].clips.push(clip);
    tl.recalculate_duration();
    let mut cmd = RemoveClip::new(1);
    assert!(cmd.execute(&mut tl).is_ok());
    assert!(tl.video_tracks[0].clips.is_empty());
    assert!((in_secs(tl.duration) - 0.0).abs() < 1e-9);
}

#[test]
fn test_remove_clip_undo() {
    let mut tl = Timeline::new();
    let clip = make_clip(1, 0.0, 5.0, 0);
    tl.video_tracks[0].clips.push(clip);
    let mut cmd = RemoveClip::new(1);
    cmd.execute(&mut tl).unwrap();
    cmd.undo(&mut tl).unwrap();
    assert_eq!(tl.video_tracks[0].clips.len(), 1);
    assert!((in_secs(tl.duration) - 5.0).abs() < 1e-9);
}

#[test]
fn test_remove_clip_not_found() {
    let mut tl = Timeline::new();
    let mut cmd = RemoveClip::new(999);
    assert!(cmd.execute(&mut tl).is_err());
}

#[test]
fn test_remove_clip_undo_before_execute() {
    let mut tl = Timeline::new();
    let cmd = RemoveClip::new(1);
    assert!(cmd.undo(&mut tl).is_err());
}

#[test]
fn test_remove_clip_name() {
    let cmd = RemoveClip::new(1);
    assert_eq!(cmd.name(), "Remove Clip");
}

#[test]
fn test_track_mut_video() {
    let mut tl = Timeline::new();
    let track = track_mut(&mut tl, 0);
    assert!(track.is_some());
    assert!(matches!(track.unwrap().kind, TrackKind::Video));
}

#[test]
fn test_track_mut_audio() {
    let mut tl = Timeline::new();
    let track = track_mut(&mut tl, 1);
    assert!(track.is_some());
    assert!(matches!(track.unwrap().kind, TrackKind::Audio));
}

#[test]
fn test_track_mut_out_of_bounds() {
    let mut tl = Timeline::new();
    let track = track_mut(&mut tl, 99);
    assert!(track.is_none());
}

#[test]
fn error_messages_name_the_failure() {
    let mut tl = Timeline::new();
    let mut add = AddClip { clip: make_clip(1, 0.0, 5.0, 2) };
    assert_eq!(add.execute(&mut tl), Err("Track not found".to_string()));
    assert_eq!(add.undo(&mut tl), Err("Track not found".to_string()));
    let mut remove = RemoveClip::new(4);
    assert_eq!(remove.undo(&mut tl), Err("No clip to restore".to_string()));
    assert_eq!(remove.execute(&mut tl), Err("Clip not found".to_string()));
}

#[test]
fn refused_add_leaves_the_timeline_alone() {
    let mut tl = Timeline::new();
    tl.video_tracks[0].clips.push(make_clip(1, 0.0, 3.0, 0));
    let mut add = AddClip { clip: make_clip(2, 0.0, 50.0, 2) };
    assert!(add.execute(&mut tl).is_err());
    assert_eq!(tl.video_tracks[0].clips.len(), 1);
    assert_eq!(tl.audio_tracks[0].clips.len(), 0);
    assert_eq!(tl.duration, 0);
}

#[test]
fn add_then_undo_gives_back_the_timeline() {
    let mut tl = Timeline::new();
    tl.audio_tracks[0].clips.push(make_clip(1, 0.0, 3.0, 1));
    tl.audio_tracks[0].clips.push(make_clip(2, 3.0, 4.0, 1));
    let mut add = AddClip { clip: make_clip(3, 10.0, 5.0, 1) };
    add.execute(&mut tl).unwrap();
    assert_eq!(tl.audio_tracks[0].clips.len(), 3);
    assert_eq!(tl.duration, secs(15.0));
    add.undo(&mut tl).unwrap();
    let ids: Vec<u64> = tl.audio_tracks[0].clips.iter().map(|c| c.id).collect();
    assert_eq!(ids, vec![1, 2]);
    assert_eq!(tl.duration, secs(7.0));
}

#[test]
fn undoing_an_add_takes_out_every_clip_with_that_id() {
    let mut tl = Timeline::new();
    tl.video_tracks[0].clips.push(make_clip(5, 0.0, 1.0, 0));
    tl.video_tracks[0].clips.push(make_clip(6, 0.0, 1.0, 0));
    let add = AddClip { clip: make_clip(5, 2.0, 1.0, 0) };
    add.undo(&mut tl).unwrap();
    let ids: Vec<u64> = tl.video_tracks[0].clips.iter().map(|c| c.id).collect();
    assert_eq!(ids, vec![6]);
}

#[test]
fn remove_searches_video_tracks_first_and_takes_the_first_match() {
    let mut tl = Timeline::new();
    tl.audio_tracks[0].clips.push(make_clip(9, 0.0, 100.0, 1));
    tl.video_tracks[0].clips.push(make_clip(8, 0.0, 1.0, 0));
    tl.video_tracks[0].clips.push(make_clip(9, 1.0, 2.0, 0));
    tl.video_tracks[0].clips.push(make_clip(9, 5.0, 2.0, 0));
    let mut remove = RemoveClip::new(9);
    remove.execute(&mut tl).unwrap();
    let starts: Vec<Time> = tl.video_tracks[0].clips.iter().map(|c| c.start).collect();
    assert_eq!(starts, vec![0, secs(5.0)]);
    assert_eq!(tl.audio_tracks[0].clips.len(), 1);
    assert_eq!(tl.duration, secs(100.0));
}

#[test]
fn remove_then_undo_puts_the_clip_at_the_end_of_its_track() {
    let mut tl = Timeline::new();
    tl.video_tracks[0].clips.push(make_clip(1, 0.0, 1.0, 0));
    tl.video_tracks[0].clips.push(make_clip(2, 1.0, 1.0, 0));
    tl.video_tracks[0].clips.push(make_clip(3, 2.0, 1.0, 0));
    tl.recalculate_duration();
    let before = tl.duration;
    let mut remove = RemoveClip::new(1);
    remove.execute(&mut tl).unwrap();
    remove.undo(&mut tl).unwrap();
    let ids: Vec<u64> = tl.video_tracks[0].clips.iter().map(|c| c.id).collect();
    assert_eq!(ids, vec![2, 3, 1]);
    assert_eq!(tl.duration, before);
}

#[test]
fn restored_clip_goes_to_the_track_its_index_names() {
    let mut tl = Timeline::new();
    tl.video_tracks[0].clips.push(make_clip(1, 0.0, 8.0, 1));
    tl.recalculate_duration();
    let mut remove = RemoveClip::new(1);
    remove.execute(&mut tl).unwrap();
    assert_eq!(tl.duration, 0);
    remove.undo(&mut tl).unwrap();
    assert!(tl.video_tracks[0].clips.is_empty());
    assert_eq!(tl.audio_tracks[0].clips.len(), 1);
    assert_eq!(tl.duration, secs(8.0));
}

#[test]
fn track_mut_counts_audio_after_video() {
    let mut tl = Timeline::new();
    tl.add_video_track();
    tl.add_audio_track();
    assert!(matches!(track_mut(&mut tl, 1).unwrap().kind, TrackKind::Video));
    assert_eq!(track_mut(&mut tl, 3).unwrap().name, "A2");
    assert!(track_mut(&mut tl, 4).is_none());
    track_mut(&mut tl, 2).unwrap().clips.push(make_clip(4, 0.0, 1.0, 2));
    assert_eq!(tl.audio_tracks[0].clips.len(), 1);
}

#[test]
fn remove_clip_names_its_target() {
    let cmd = RemoveClip::new(42);
    assert_eq!(cmd.target_id(), 42);
    assert_eq!(cmd.clip_id, 42);
}
