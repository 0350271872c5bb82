use video_editor::compositor::{
    clip_covers, compose_frame, frame_requests, layer_fits, overlay, source_time,
};
use video_editor::decode::{
    frame_time, seek_step, seek_target, stream_frame_rate, DecodedFrame, Received, SeekStep,
};
use video_editor::export::{
    export_frame_count, export_frame_time, progress_report, reports_progress, ExportError,
};
use video_editor::probe::{DecoderFacts, MediaProbe, ProbeError, StreamFacts, StreamKind};
use video_editor::timeline::{Clip, Time, Timeline};

fn secs(x: f64) -> Time {
    (x * 1_000_000.0).round() as Time
}

fn clip(id: u64, path: &str, start: f64, duration: f64, source_in: f64, track: usize) -> Clip {
    Clip {
        id,
        source_path: path.into(),
        name: format!("clip_{id}"),
        start: secs(start),
        duration: secs(duration),
        source_in: secs(source_in),
        track_index: track,
    }
}

fn solid(width: u32, height: u32, rgba: [u8; 4]) -> DecodedFrame {
    let mut data = Vec::new();
    for _ in 0..(width * height) {
        data.extend_from_slice(&rgba);
    }
    DecodedFrame { data, width, height, pts: 0 }
}

#[test]
fn opaque_frame_replaces_the_canvas() {
    let mut canvas = vec![9u8; 2 * 2 * 4];
    overlay(&mut canvas, 2, 2, &solid(1, 1, [10, 20, 30, 255]));
    assert_eq!(canvas, [10, 20, 30, 255].repeat(4));
}

#[test]
fn transparent_frame_leaves_the_canvas() {
    let mut canvas = vec![9u8; 3 * 1 * 4];
    overlay(&mut canvas, 3, 1, &solid(2, 2, [10, 20, 30, 0]));
    assert_eq!(canvas, vec![9u8; 12]);
}

#[test]
fn translucent_frame_mixes_and_becomes_opaque() {
    let mut canvas = vec![100u8, 200, 0, 7];
    overlay(&mut canvas, 1, 1, &solid(1, 1, [255, 0, 50, 51]));
    // (255*51 + 100*204)/255 = 131, (0 + 200*204)/255 = 160, (50*51)/255 = 10
    assert_eq!(canvas, vec![131, 160, 10, 255]);
}

#[test]
fn frame_is_stretched_to_the_canvas() {
    let mut frame = solid(2, 1, [0, 0, 0, 255]);
    frame.data[4..8].copy_from_slice(&[1, 2, 3, 255]);
    let mut canvas = vec![0u8; 4 * 1 * 4];
    overlay(&mut canvas, 4, 1, &frame);
    assert_eq!(canvas, vec![0, 0, 0, 255, 0, 0, 0, 255, 1, 2, 3, 255, 1, 2, 3, 255]);
}

#[test]
fn bytes_past_the_picture_are_kept() {
    let mut canvas = vec![5u8; 6];
    overlay(&mut canvas, 1, 1, &solid(1, 1, [1, 1, 1, 255]));
    assert_eq!(canvas, vec![1, 1, 1, 255, 5, 5]);
}

#[test]
fn compose_draws_layers_in_order() {
    let layers = vec![solid(1, 1, [1, 1, 1, 255]), solid(1, 1, [2, 2, 2, 255]), solid(1, 1, [3, 3, 3, 0])];
    let f = compose_frame(2, 1, 42, &layers);
    assert_eq!(f.data, vec![2, 2, 2, 255, 2, 2, 2, 255]);
    assert_eq!((f.width, f.height, f.pts), (2, 1, 42));
    let empty = compose_frame(1, 2, 0, &vec![]);
    assert_eq!(empty.data, vec![0u8; 8]);
}

#[test]
fn requests_cover_the_clips_that_show() {
    let mut tl = Timeline::new();
    tl.add_video_track();
    tl.video_tracks[0].clips.push(clip(1, "/bg.mp4", 0.0, 20.0, 0.0, 0));
    tl.video_tracks[0].clips.push(clip(2, "/late.mp4", 30.0, 5.0, 0.0, 0));
    tl.video_tracks[1].clips.push(clip(3, "/overlay.mp4", 5.0, 10.0, 2.0, 1));
    tl.audio_tracks[0].clips.push(clip(4, "/music.mp3", 0.0, 60.0, 0.0, 2));
    let r = frame_requests(&tl, secs(7.0));
    let got: Vec<(String, Time)> = r.iter().map(|q| (q.source_path.clone(), q.source_time)).collect();
    assert_eq!(got, vec![("/bg.mp4".to_string(), secs(7.0)), ("/overlay.mp4".to_string(), secs(4.0))]);
    assert_eq!(frame_requests(&tl, secs(20.0)).len(), 0);
    assert_eq!(frame_requests(&tl, secs(15.0)).len(), 1);
}

#[test]
fn a_clip_shows_from_its_start_to_before_its_end() {
    let c = clip(1, "/a.mp4", 2.0, 3.0, 10.0, 0);
    assert!(!clip_covers(&c, secs(1.999999)));
    assert!(clip_covers(&c, secs(2.0)));
    assert!(clip_covers(&c, secs(4.999999)));
    assert!(!clip_covers(&c, secs(5.0)));
    assert_eq!(source_time(&c, secs(3.5)), secs(11.5));
}

#[test]
fn export_frame_counts_round_up() {
    assert_eq!(export_frame_count(secs(10.0), 30_000).unwrap(), 300);
    assert_eq!(export_frame_count(secs(10.01), 30_000).unwrap(), 301);
    assert_eq!(export_frame_count(1, 29_970).unwrap(), 1);
    assert!(matches!(export_frame_count(0, 30_000), Err(ExportError::NoFrames)));
    assert!(matches!(export_frame_count(-5, 30_000), Err(ExportError::NoFrames)));
}

#[test]
fn export_frame_times_and_progress() {
    assert_eq!(export_frame_time(0, 30_000), 0);
    assert_eq!(export_frame_time(1, 30_000), 33_333);
    assert_eq!(export_frame_time(30, 30_000), 1_000_000);
    assert!(reports_progress(0, 300));
    assert!(reports_progress(10, 300));
    assert!(!reports_progress(11, 300));
    assert!(reports_progress(299, 300));
}

#[test]
fn stream_rates_and_time_stamps() {
    assert_eq!(stream_frame_rate(30_000, 1_001), 29_970);
    assert_eq!(stream_frame_rate(25, 1), 25_000);
    assert_eq!(stream_frame_rate(25, 0), 30_000);
    assert_eq!(stream_frame_rate(-25, 1), 0);
    assert_eq!(seek_target(secs(1.0), 1, 90_000), 90_000);
    assert_eq!(seek_target(secs(-1.0), 1, 90_000), -90_000);
    assert_eq!(seek_target(5, 0, 90_000), i64::MAX);
    assert_eq!(frame_time(90_000, 1, 90_000), 1_000_000);
    assert_eq!(frame_time(1, 1, 3), 333_333);
    assert_eq!(frame_time(0, 1, 0), 0);
}

#[test]
fn degenerate_time_bases_follow_float_division() {
    // A time base of 1/0 is infinite: time divided by it is 0.
    assert_eq!(seek_target(5_000_000, 1, 0), 0);
    assert_eq!(seek_target(-5_000_000, -3, 0), 0);
    // 0/0 is not a number.
    assert_eq!(seek_target(5_000_000, 0, 0), 0);
    // 0/den is a zero with the sign of den.
    assert_eq!(seek_target(5, 0, 90_000), i64::MAX);
    assert_eq!(seek_target(-5, 0, 90_000), i64::MIN);
    assert_eq!(seek_target(5, 0, -90_000), i64::MIN);
    assert_eq!(seek_target(0, 0, 90_000), 0);
    // A time stamp times an infinite time base.
    assert_eq!(frame_time(1, 1, 0), i64::MAX);
    assert_eq!(frame_time(-1, 1, 0), i64::MIN);
    assert_eq!(frame_time(2, -1, 0), i64::MIN);
    assert_eq!(frame_time(7, 0, 0), 0);
    assert_eq!(frame_time(7, 0, 5), 0);
}

#[test]
fn seeking_delivers_the_first_frame_at_the_target() {
    assert_eq!(seek_step(100, &Received::Frame(Some(99))), SeekStep::Skip);
    assert_eq!(seek_step(100, &Received::Frame(Some(100))), SeekStep::Deliver);
    assert_eq!(seek_step(100, &Received::Frame(Some(250))), SeekStep::Deliver);
    assert_eq!(seek_step(100, &Received::Frame(None)), SeekStep::Skip);
    assert_eq!(seek_step(0, &Received::Frame(None)), SeekStep::Deliver);
    assert_eq!(seek_step(-5, &Received::Frame(None)), SeekStep::Deliver);
    assert_eq!(seek_step(100, &Received::NeedsPacket), SeekStep::NextPacket);
    assert_eq!(seek_step(100, &Received::Failed), SeekStep::Stop);
}

#[test]
fn export_reports_every_tenth_frame_and_the_last() {
    let reports: Vec<(u64, u64)> = (0..25).filter_map(|i| progress_report(i, 25)).collect();
    assert_eq!(reports, vec![(1, 25), (11, 25), (21, 25), (25, 25)]);
    assert_eq!(progress_report(0, 1), Some((1, 1)));
    assert_eq!(progress_report(3, 4), Some((4, 4)));
    assert_eq!(progress_report(5, 30), None);
    assert_eq!(progress_report(20, 30), Some((21, 30)));
}

#[test]
fn probe_summarizes_streams() {
    let probe = MediaProbe::new();
    let streams = vec![
        StreamFacts {
            kind: StreamKind::Video,
            rate_num: 30,
            rate_den: 1,
            decoder: Some(DecoderFacts { width: 1920, height: 1080, codec_name: Some("h264".into()) }),
        },
        StreamFacts {
            kind: StreamKind::Audio,
            rate_num: 0,
            rate_den: 0,
            decoder: Some(DecoderFacts { width: 0, height: 0, codec_name: None }),
        },
        StreamFacts { kind: StreamKind::Other, rate_num: 0, rate_den: 0, decoder: None },
    ];
    let info = probe.summarize("/v.mp4", secs(12.5), &streams).unwrap();
    assert_eq!(info.path, "/v.mp4");
    assert_eq!(info.duration, secs(12.5));
    assert_eq!((info.width, info.height, info.frame_rate), (1920, 1080, 30_000));
    assert_eq!(info.video_codec, "h264");
    assert_eq!(info.audio_codec, Some(String::new()));
    assert!(info.has_video && info.has_audio);
}

#[test]
fn probe_refuses_files_without_media_streams() {
    let probe = MediaProbe::new();
    let streams = vec![StreamFacts { kind: StreamKind::Other, rate_num: 1, rate_den: 1, decoder: None }];
    match probe.summarize("/x.bin", 0, &streams) {
        Err(ProbeError::UnsupportedFormat(m)) => assert_eq!(m, "No video or audio streams found"),
        other => panic!("unexpected {:?}", other),
    }
}

#[test]
fn probe_keeps_video_facts_of_the_last_stream_that_has_them() {
    let probe = MediaProbe::new();
    let streams = vec![
        StreamFacts {
            kind: StreamKind::Video,
            rate_num: 24,
            rate_den: 1,
            decoder: Some(DecoderFacts { width: 640, height: 480, codec_name: Some("vp9".into()) }),
        },
        StreamFacts { kind: StreamKind::Video, rate_num: 60, rate_den: 0, decoder: None },
    ];
    let info = probe.summarize("/v.webm", 1, &streams).unwrap();
    assert_eq!((info.width, info.height, info.frame_rate), (640, 480, 24_000));
    assert_eq!(info.video_codec, "vp9");
    assert_eq!(info.audio_codec, None);
    assert!(!info.has_audio);
}

#[test]
fn opaque_frame_of_the_same_size_is_copied() {
    let frame = DecodedFrame {
        data: vec![1, 2, 3, 255, 4, 5, 6, 255, 7, 8, 9, 255, 10, 11, 12, 255, 13, 14, 15, 255, 16, 17, 18, 255],
        width: 3,
        height: 2,
        pts: 0,
    };
    let mut canvas = vec![200u8; 24];
    overlay(&mut canvas, 3, 2, &frame);
    assert_eq!(canvas, frame.data);
}

#[test]
fn zero_sized_frames_with_bytes_draw_their_first_pixel() {
    let frame = DecodedFrame { data: vec![7, 8, 9, 255], width: 0, height: 0, pts: 0 };
    assert!(layer_fits(2, 1, &frame));
    let mut canvas = vec![0u8; 8];
    overlay(&mut canvas, 2, 1, &frame);
    assert_eq!(canvas, vec![7, 8, 9, 255, 7, 8, 9, 255]);
    let empty = DecodedFrame { data: vec![], width: 0, height: 0, pts: 0 };
    assert!(!layer_fits(2, 1, &empty));
    assert!(layer_fits(0, 1, &empty));
}

#[test]
fn frames_need_only_the_bytes_that_drawing_reads() {
    // A 4x1 frame over a 1x1 picture reads only its first pixel.
    let frame = DecodedFrame { data: vec![1, 2, 3, 255], width: 4, height: 1, pts: 0 };
    assert!(layer_fits(1, 1, &frame));
    let mut canvas = vec![0u8; 4];
    overlay(&mut canvas, 1, 1, &frame);
    assert_eq!(canvas, vec![1, 2, 3, 255]);
    // Over a 2x1 picture it reads pixel 2, which lies past those bytes.
    assert!(!layer_fits(2, 1, &frame));
    assert!(layer_fits(2, 1, &solid(4, 1, [0, 0, 0, 255])));
}
