use video_editor::commands::{AddClip, RemoveClip, TimelineCommand};
use video_editor::project::Project;
use video_editor::timeline::{Clip, Time, Timeline};

fn secs(x: f64) -> Time {
    (x * 1_000_000.0).round() as Time
}

fn in_secs(t: Time) -> f64 {
    t as f64 / 1_000_000.0
}

#[test]
fn test_timeline_add_remove_clips_integration() {
    let mut tl = Timeline::new();
    let clip = Clip {
        id: 1,
        source_path: "/data/clip_a.mp4".into(),
        name: "Clip A".into(),
        start: secs(0.0),
        duration: secs(5.0),
        source_in: secs(0.0),
        track_index: 0,
    };

    let mut add = AddClip { clip };
    add.execute(&mut tl).unwrap();
    assert_eq!(tl.video_tracks[0].clips.len(), 1);
    assert!((in_secs(tl.duration) - 5.0).abs() < 1e-9);

    let mut remove = RemoveClip::new(1);
    remove.execute(&mut tl).unwrap();
    assert!(tl.video_tracks[0].clips.is_empty());

    remove.undo(&mut tl).unwrap();
    assert_eq!(tl.video_tracks[0].clips.len(), 1);
}

#[test]
fn test_track_duration_with_gap() {
    let mut tl = Timeline::new();
    tl.video_tracks[0].clips.push(Clip {
        id: 1,
        source_path: "/data/a.mp4".into(),
        name: "A".into(),
        start: secs(0.0),
        duration: secs(5.0),
        source_in: secs(0.0),
        track_index: 0,
    });
    tl.video_tracks[0].clips.push(Clip {
        id: 2,
        source_path: "/data/b.mp4".into(),
        name: "B".into(),
        start: secs(10.0),
        duration: secs(3.0),
        source_in: secs(0.0),
        track_index: 0,
    });
    tl.recalculate_duration();
    assert!((in_secs(tl.duration) - 13.0).abs() < 1e-9);
}

#[test]
fn test_multi_track_overlap() {
    let mut tl = Timeline::new();
    tl.add_video_track();

    tl.video_tracks[0].clips.push(Clip {
        id: 1,
        source_path: "/data/bg.mp4".into(),
        name: "BG".into(),
        start: secs(0.0),
        duration: secs(20.0),
        source_in: secs(0.0),
        track_index: 0,
    });
    tl.video_tracks[1].clips.push(Clip {
        id: 2,
        source_path: "/data/overlay.mp4".into(),
        name: "Overlay".into(),
        start: secs(5.0),
        duration: secs(10.0),
        source_in: secs(2.0),
        track_index: 1,
    });
    tl.recalculate_duration();
    assert!((in_secs(tl.duration) - 20.0).abs() < 1e-9);
}

#[test]
fn new_project_starts_empty() {
    let project = Project::new("Integration Test");
    assert_eq!(project.name, "Integration Test");
    assert_eq!(project.timeline.video_tracks.len(), 1);
    assert_eq!(project.timeline.audio_tracks.len(), 1);
    assert!(project.media.is_empty());
    let copy = project.clone();
    assert_eq!(copy.name, "Integration Test");
}
