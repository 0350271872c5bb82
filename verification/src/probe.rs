use vstd::prelude::*;

use crate::decode::{stream_frame_rate, stream_rate_millis};
use crate::timeline::Time;

verus! {

/// What probing a media file found: its duration in microseconds, the
/// picture size and frame rate (frames per thousand seconds) of its video,
/// and its codecs.
#[derive(Debug)]
pub struct MediaInfo {
    pub path: String,
    pub duration: Time,
    pub width: u32,
    pub height: u32,
    pub frame_rate: u32,
    pub video_codec: String,
    pub audio_codec: Option<String>,
    pub has_audio: bool,
    pub has_video: bool,
}

pub struct MediaInfoView {
    pub path: Seq<char>,
    pub duration: int,
    pub width: int,
    pub height: int,
    pub frame_rate: int,
    pub video_codec: Seq<char>,
    pub audio_codec: Option<Seq<char>>,
    pub has_audio: bool,
    pub has_video: bool,
}

impl View for MediaInfo {
    type V = MediaInfoView;

    open spec fn view(&self) -> MediaInfoView {
        MediaInfoView {
            path: self.path@,
            duration: self.duration as int,
            width: self.width as int,
            height: self.height as int,
            frame_rate: self.frame_rate as int,
            video_codec: self.video_codec@,
            audio_codec: match self.audio_codec {
                Some(c) => Some(c@),
                None => None,
            },
            has_audio: self.has_audio,
            has_video: self.has_video,
        }
    }
}

#[derive(Debug)]
pub enum ProbeError {
    FileNotFound(String),
    UnsupportedFormat(String),
    Failed(String),
}

#[derive(Debug, Clone, Copy, PartialEq, Eq)]
pub enum StreamKind {
    Video,
    Audio,
    Other,
}

/// What a media file's stream announces: its kind, its frame rate as
/// `rate_num / rate_den` frames per second, and, when a decoder could be
/// opened for it, what the decoder reports.
#[derive(Debug)]
pub struct StreamFacts {
    pub kind: StreamKind,
    pub rate_num: i32,
    pub rate_den: i32,
    pub decoder: Option<DecoderFacts>,
}

/// What a stream's decoder reports: the picture size (video) and the
/// codec's name, when the codec has one.
#[derive(Debug)]
pub struct DecoderFacts {
    pub width: u32,
    pub height: u32,
    pub codec_name: Option<String>,
}

pub open spec fn name_or_empty(n: Option<String>) -> Seq<char> {
    match n {
        Some(s) => s@,
        None => Seq::empty(),
    }
}

/// What is known of a file after reading one more stream: a video stream
/// sets the video flag, its decoder's size and codec (when one opened) and
/// its frame rate (when its denominator is positive); an audio stream sets
/// the audio flag and its codec (when a decoder opened); later streams
/// override earlier ones.
pub open spec fn after_stream(v: MediaInfoView, s: StreamFacts) -> MediaInfoView {
    match s.kind {
        StreamKind::Video => {
            let v1 = match s.decoder {
                Some(d) => MediaInfoView {
                    width: d.width as int,
                    height: d.height as int,
                    video_codec: name_or_empty(d.codec_name),
                    ..v
                },
                None => v,
            };
            let v2 = if s.rate_den > 0 {
                MediaInfoView { frame_rate: stream_rate_millis(s.rate_num as int, s.rate_den as int), ..v1 }
            } else {
                v1
            };
            MediaInfoView { has_video: true, ..v2 }
        },
        StreamKind::Audio => {
            let v1 = match s.decoder {
                Some(d) => MediaInfoView { audio_codec: Some(name_or_empty(d.codec_name)), ..v },
                None => v,
            };
            MediaInfoView { has_audio: true, ..v1 }
        },
        StreamKind::Other => v,
    }
}

/// What is known of a file after reading `streams` in order.
pub open spec fn after_streams(v: MediaInfoView, streams: Seq<StreamFacts>) -> MediaInfoView
    decreases streams.len(),
{
    if streams.len() == 0 {
        v
    } else {
        after_stream(after_streams(v, streams.drop_last()), streams.last())
    }
}

/// What is known of a file before any stream is read: its path and
/// duration, nothing else.
pub open spec fn unprobed(path: Seq<char>, duration: int) -> MediaInfoView {
    MediaInfoView {
        path,
        duration,
        width: 0,
        height: 0,
        frame_rate: 0,
        video_codec: Seq::empty(),
        audio_codec: None,
        has_audio: false,
        has_video: false,
    }
}

fn name_string(n: &Option<String>) -> (r: String)
    ensures
        r@ == name_or_empty(*n),
{
    match n {
        Some(s) => s.clone(),
        None => String::new(),
    }
}

pub struct MediaProbe;

impl MediaProbe {
    pub fn new() -> (r: Self) {
        MediaProbe
    }

    /// What a file at `path` holds, given its duration in microseconds and
    /// what its streams announce (see `after_streams`); a file with neither
    /// a video nor an audio stream is refused as unsupported.
    pub fn summarize(&self, path: &str, duration: Time, streams: &Vec<StreamFacts>) -> (r: Result<
        MediaInfo,
        ProbeError,
    >)
        ensures
            ({
                let v = after_streams(unprobed(path@, duration as int), streams@);
                &&& (v.has_video || v.has_audio) ==> (r matches Ok(info) && info@ == v)
                &&& !(v.has_video || v.has_audio) ==> (r matches Err(ProbeError::UnsupportedFormat(m))
                    && m@ == "No video or audio streams found"@)
            }),
    {
        let mut info = MediaInfo {
            path: String::from_str(path),
            duration,
            width: 0,
            height: 0,
            frame_rate: 0,
            video_codec: String::new(),
            audio_codec: None,
            has_audio: false,
            has_video: false,
        };
        let n = streams.len();
        for i in 0..n
            invariant
                n == streams@.len(),
                info@ == after_streams(unprobed(path@, duration as int), streams@.take(i as int)),
        {
            let s = &streams[i];
            assert(streams@.take(i + 1).drop_last() =~= streams@.take(i as int));
            match s.kind {
                StreamKind::Video => {
                    info.has_video = true;
                    match &s.decoder {
                        Some(d) => {
                            info.width = d.width;
                            info.height = d.height;
                            info.video_codec = name_string(&d.codec_name);
                        },
                        None => {},
                    }
                    if s.rate_den > 0 {
                        info.frame_rate = stream_frame_rate(s.rate_num, s.rate_den);
                    }
                },
                StreamKind::Audio => {
                    info.has_audio = true;
                    match &s.decoder {
                        Some(d) => {
                            info.audio_codec = Some(name_string(&d.codec_name));
                        },
                        None => {},
                    }
                },
                StreamKind::Other => {},
            }
            assert(info@ =~= after_stream(
                after_streams(unprobed(path@, duration as int), streams@.take(i as int)),
                streams@[i as int],
            ));
        }
        assert(streams@.take(n as int) =~= streams@);
        if !info.has_video && !info.has_audio {
            return Err(ProbeError::UnsupportedFormat(String::from_str("No video or audio streams found")));
        }
        Ok(info)
    }
}

impl Default for MediaProbe {
    fn default() -> (r: Self) {
        MediaProbe::new()
    }
}

/// Summarising keeps the path and duration; the file has video exactly when
/// one of its streams is a video stream, and audio exactly when one is an
/// audio stream; with no audio stream whose decoder opened there is no
/// audio codec; with no video stream whose decoder opened the video codec
/// is empty and the size 0 by 0; with no video stream that announces a
/// positive denominator the frame rate is 0.
pub proof fn lemma_probe_flags(path: Seq<char>, duration: int, streams: Seq<StreamFacts>)
    ensures
        ({
            let v = after_streams(unprobed(path, duration), streams);
            &&& v.path == path
            &&& v.duration == duration
            &&& v.has_video <==> exists|k: int| 0 <= k < streams.len() && #[trigger] streams[k].kind == StreamKind::Video
            &&& v.has_audio <==> exists|k: int| 0 <= k < streams.len() && #[trigger] streams[k].kind == StreamKind::Audio
            &&& (forall|k: int| 0 <= k < streams.len() && #[trigger] streams[k].kind == StreamKind::Audio ==> streams[k].decoder is None)
                ==> v.audio_codec is None
            &&& (forall|k: int| 0 <= k < streams.len() && #[trigger] streams[k].kind == StreamKind::Video ==> streams[k].decoder is None)
                ==> v.video_codec == Seq::<char>::empty() && v.width == 0 && v.height == 0
            &&& (forall|k: int| 0 <= k < streams.len() && #[trigger] streams[k].kind == StreamKind::Video ==> streams[k].rate_den <= 0)
                ==> v.frame_rate == 0
        }),
    decreases streams.len(),
{
    if streams.len() > 0 {
        let init = streams.drop_last();
        lemma_probe_flags(path, duration, init);
        let last = streams.last();
        assert(last == streams[streams.len() - 1]);
        assert forall|k: int| 0 <= k < init.len() implies #[trigger] init[k] == streams[k] by {}
        if exists|k: int| 0 <= k < init.len() && #[trigger] init[k].kind == StreamKind::Video {
            let k = choose|k: int| 0 <= k < init.len() && #[trigger] init[k].kind == StreamKind::Video;
            assert(streams[k].kind == StreamKind::Video);
        }
        if exists|k: int| 0 <= k < init.len() && #[trigger] init[k].kind == StreamKind::Audio {
            let k = choose|k: int| 0 <= k < init.len() && #[trigger] init[k].kind == StreamKind::Audio;
            assert(streams[k].kind == StreamKind::Audio);
        }
        if exists|k: int| 0 <= k < streams.len() && #[trigger] streams[k].kind == StreamKind::Video {
            let k = choose|k: int| 0 <= k < streams.len() && #[trigger] streams[k].kind == StreamKind::Video;
            if k < init.len() {
                assert(init[k].kind == StreamKind::Video);
            }
        }
        if exists|k: int| 0 <= k < streams.len() && #[trigger] streams[k].kind == StreamKind::Audio {
            let k = choose|k: int| 0 <= k < streams.len() && #[trigger] streams[k].kind == StreamKind::Audio;
            if k < init.len() {
                assert(init[k].kind == StreamKind::Audio);
            }
        }
    }
}

/// The audio codec is what the decoder of the last audio stream that opened
/// one reports: its codec's name, or "" when the codec has none.
pub proof fn lemma_probe_audio_codec(path: Seq<char>, duration: int, streams: Seq<StreamFacts>, k: int)
    requires
        0 <= k < streams.len(),
        streams[k].kind == StreamKind::Audio,
        streams[k].decoder is Some,
        forall|j: int|
            k < j < streams.len() && #[trigger] streams[j].kind == StreamKind::Audio ==> streams[j].decoder is None,
    ensures
        ({
            let v = after_streams(unprobed(path, duration), streams);
            &&& streams[k].decoder->0.codec_name matches Some(n) ==> v.audio_codec == Some(n@)
            &&& streams[k].decoder->0.codec_name is None ==> v.audio_codec == Some(Seq::<char>::empty())
        }),
    decreases streams.len(),
{
    let init = streams.drop_last();
    if k < streams.len() - 1 {
        assert forall|j: int| k < j < init.len() && #[trigger] init[j].kind == StreamKind::Audio implies init[j].decoder is None by {
            assert(init[j] == streams[j]);
        }
        assert(init[k] == streams[k]);
        lemma_probe_audio_codec(path, duration, init, k);
        assert(streams.last() == streams[streams.len() - 1]);
    }
}

/// The video codec and picture size are what the decoder of the last video
/// stream that opened one reports (the codec's name, or "" when it has
/// none).
pub proof fn lemma_probe_video_decoder(path: Seq<char>, duration: int, streams: Seq<StreamFacts>, k: int)
    requires
        0 <= k < streams.len(),
        streams[k].kind == StreamKind::Video,
        streams[k].decoder is Some,
        forall|j: int|
            k < j < streams.len() && #[trigger] streams[j].kind == StreamKind::Video ==> streams[j].decoder is None,
    ensures
        ({
            let v = after_streams(unprobed(path, duration), streams);
            let d = streams[k].decoder->0;
            &&& v.width == d.width
            &&& v.height == d.height
            &&& d.codec_name matches Some(n) ==> v.video_codec == n@
            &&& d.codec_name is None ==> v.video_codec == Seq::<char>::empty()
        }),
    decreases streams.len(),
{
    let init = streams.drop_last();
    if k < streams.len() - 1 {
        assert forall|j: int| k < j < init.len() && #[trigger] init[j].kind == StreamKind::Video implies init[j].decoder is None by {
            assert(init[j] == streams[j]);
        }
        assert(init[k] == streams[k]);
        lemma_probe_video_decoder(path, duration, init, k);
        assert(streams.last() == streams[streams.len() - 1]);
    }
}

/// The frame rate is that of the last video stream that announces a
/// positive denominator (see `lemma_stream_rate_rounds`).
pub proof fn lemma_probe_frame_rate(path: Seq<char>, duration: int, streams: Seq<StreamFacts>, k: int)
    requires
        0 <= k < streams.len(),
        streams[k].kind == StreamKind::Video,
        streams[k].rate_den > 0,
        forall|j: int|
            k < j < streams.len() && #[trigger] streams[j].kind == StreamKind::Video ==> streams[j].rate_den <= 0,
    ensures
        after_streams(unprobed(path, duration), streams).frame_rate == stream_rate_millis(
            streams[k].rate_num as int,
            streams[k].rate_den as int,
        ),
    decreases streams.len(),
{
    let init = streams.drop_last();
    if k < streams.len() - 1 {
        assert forall|j: int| k < j < init.len() && #[trigger] init[j].kind == StreamKind::Video implies init[j].rate_den <= 0 by {
            assert(init[j] == streams[j]);
        }
        assert(init[k] == streams[k]);
        lemma_probe_frame_rate(path, duration, init, k);
        assert(streams.last() == streams[streams.len() - 1]);
    }
}

} // verus!
