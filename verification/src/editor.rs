use vstd::prelude::*;

use crate::project::Project;
use crate::timeline::{Time, initial_timeline};

verus! {

/// What the background export tells the editor.
#[derive(Debug)]
pub enum ExportEvent {
    Progress(u64, u64),
    Done,
    Error(String),
}

/// What decoding the next frame gave.
#[derive(Debug, Clone, Copy, PartialEq, Eq)]
pub enum FrameOutcome {
    /// A frame stamped with this time, in microseconds.
    Frame(Time),
    /// The end of the media.
    End,
    /// Decoding failed.
    Failed,
}

/// The editor window's state, apart from the decoder, the picture on screen
/// and the export's channel, which the window holds itself: the open
/// project, which panels show, playback and export progress.
pub struct EditorState {
    pub project: Option<Project>,
    pub show_timeline: bool,
    pub show_media_browser: bool,
    pub show_preview: bool,
    pub media_path: String,
    pub has_media: bool,
    pub has_frame: bool,
    pub is_playing: bool,
    pub current_time: Time,
    pub duration: Time,
    pub load_error: Option<String>,
    pub is_exporting: bool,
    pub export_progress: (u64, u64),
    pub export_error: Option<String>,
    pub export_listening: bool,
}

/// How far the position slider must move, in microseconds, before the
/// editor seeks.
pub const SEEK_THRESHOLD: Time = 100_000;

impl EditorState {
    /// No project, no media, every panel shown, nothing playing or exporting.
    pub fn new() -> (r: Self)
        ensures
            r.project is None,
            r.show_timeline && r.show_media_browser && r.show_preview,
            r.media_path@ == Seq::<char>::empty(),
            !r.has_media && !r.has_frame && !r.is_playing,
            r.current_time == 0 && r.duration == 0,
            r.load_error is None,
            !r.is_exporting && r.export_progress == (0u64, 0u64) && r.export_error is None,
            !r.export_listening,
    {
        EditorState {
            project: None,
            show_timeline: true,
            show_media_browser: true,
            show_preview: true,
            media_path: String::new(),
            has_media: false,
            has_frame: false,
            is_playing: false,
            current_time: 0,
            duration: 0,
            load_error: None,
            is_exporting: false,
            export_progress: (0, 0),
            export_error: None,
            export_listening: false,
        }
    }

    /// Opens a new project named `name`.
    pub fn new_project(&mut self, name: &str)
        ensures
            final(self).project matches Some(p) && p.name@ == name@ && p.timeline@ == initial_timeline()
                && p.media@.len() == 0,
            *final(self) == (EditorState { project: final(self).project, ..*old(self) }),
    {
        self.project = Some(Project::new(name));
    }

    /// Takes in the outcome of opening the media at `path`: its duration in
    /// microseconds, or why it could not be opened. Opened media replaces
    /// the current media and stops playback at 0; a failure drops the
    /// current media and keeps the error.
    pub fn media_loaded(&mut self, path: &str, outcome: Result<Time, String>)
        ensures
            outcome is Ok ==> *final(self) == (EditorState {
                media_path: final(self).media_path,
                has_media: true,
                has_frame: false,
                is_playing: false,
                current_time: 0,
                duration: outcome->Ok_0,
                load_error: None,
                ..*old(self)
            }),
            outcome is Err ==> *final(self) == (EditorState {
                has_media: false,
                has_frame: false,
                load_error: Some(outcome->Err_0),
                ..*old(self)
            }),
            outcome matches Ok(d) ==> {
                &&& final(self).media_path@ == path@
                &&& final(self).has_media
                &&& !final(self).has_frame
                &&& !final(self).is_playing
                &&& final(self).current_time == 0
                &&& final(self).duration == d
                &&& final(self).load_error is None
            },
            outcome matches Err(e) ==> {
                &&& final(self).media_path == old(self).media_path
                &&& !final(self).has_media
                &&& !final(self).has_frame
                &&& final(self).is_playing == old(self).is_playing
                &&& final(self).current_time == old(self).current_time
                &&& final(self).duration == old(self).duration
                &&& final(self).load_error == Some(e)
            },
    {
        self.load_error = None;
        match outcome {
            Ok(d) => {
                self.media_path = String::from_str(path);
                self.has_media = true;
                self.current_time = 0;
                self.is_playing = false;
                self.has_frame = false;
                self.duration = d;
            },
            Err(e) => {
                self.load_error = Some(e);
                self.has_media = false;
                self.has_frame = false;
            },
        }
    }

    /// Whether an export can start now: a project is open and no export runs.
    pub fn can_export(&self) -> (r: bool)
        ensures
            r == (self.project is Some && !self.is_exporting),
    {
        self.project.is_some() && !self.is_exporting
    }

    /// Records that an export started: no progress yet, no error, listening
    /// for its events.
    pub fn export_started(&mut self)
        ensures
            final(self).is_exporting,
            final(self).export_progress == (0u64, 0u64),
            final(self).export_error is None,
            final(self).export_listening,
            *final(self) == (EditorState {
                is_exporting: true,
                export_progress: (0u64, 0u64),
                export_error: None,
                export_listening: true,
                ..*old(self)
            }),
    {
        self.is_exporting = true;
        self.export_progress = (0, 0);
        self.export_error = None;
        self.export_listening = true;
    }

    /// Takes in an event of the running export: progress is recorded; the
    /// end, with or without an error, stops the export, clears the progress
    /// and stops listening, and an error is kept to be shown.
    pub fn export_event(&mut self, event: ExportEvent)
        ensures
            event is Progress ==> *final(self) == (EditorState {
                export_progress: (event->Progress_0, event->Progress_1),
                ..*old(self)
            }),
            event is Done ==> *final(self) == (EditorState {
                export_listening: false,
                is_exporting: false,
                export_progress: (0u64, 0u64),
                ..*old(self)
            }),
            event is Error ==> *final(self) == (EditorState {
                export_listening: false,
                is_exporting: false,
                export_progress: (0u64, 0u64),
                export_error: Some(event->Error_0),
                ..*old(self)
            }),
            event matches ExportEvent::Progress(c, t) ==> final(self).export_progress == (c, t)
                && final(self).is_exporting == old(self).is_exporting
                && final(self).export_listening == old(self).export_listening
                && final(self).export_error == old(self).export_error,
            event is Done ==> !final(self).is_exporting && final(self).export_progress == (0u64, 0u64)
                && !final(self).export_listening && final(self).export_error == old(self).export_error,
            event matches ExportEvent::Error(m) ==> !final(self).is_exporting
                && final(self).export_progress == (0u64, 0u64) && !final(self).export_listening
                && final(self).export_error == Some(m),
    {
        match event {
            ExportEvent::Progress(current, total) => {
                self.export_progress = (current, total);
            },
            ExportEvent::Done => {
                self.export_listening = false;
                self.is_exporting = false;
                self.export_progress = (0, 0);
            },
            ExportEvent::Error(message) => {
                self.export_listening = false;
                self.is_exporting = false;
                self.export_progress = (0, 0);
                self.export_error = Some(message);
            },
        }
    }

    /// Cancels the running export: the editor stops showing it and stops
    /// listening for its events.
    pub fn cancel_export(&mut self)
        ensures
            !final(self).is_exporting,
            !final(self).export_listening,
            *final(self) == (EditorState { is_exporting: false, export_listening: false, ..*old(self) }),
    {
        self.is_exporting = false;
        self.export_listening = false;
    }

    /// Takes in the next frame of playback. A frame moves the time to its
    /// stamp; the end of the media stops playback and rewinds to 0 (the
    /// answer is `true`: the decoder is to seek to 0); a failure stops
    /// playback.
    pub fn frame_decoded(&mut self, outcome: FrameOutcome) -> (rewind: bool)
        ensures
            rewind == (outcome is End),
            outcome is Frame ==> *final(self) == (EditorState {
                current_time: outcome->Frame_0,
                has_frame: true,
                ..*old(self)
            }),
            outcome is End ==> *final(self) == (EditorState {
                is_playing: false,
                current_time: 0,
                has_frame: false,
                ..*old(self)
            }),
            outcome is Failed ==> *final(self) == (EditorState { is_playing: false, ..*old(self) }),
            outcome matches FrameOutcome::Frame(t) ==> final(self).current_time == t && final(self).has_frame
                && final(self).is_playing == old(self).is_playing,
            outcome is End ==> !final(self).is_playing && final(self).current_time == 0 && !final(self).has_frame,
            outcome is Failed ==> !final(self).is_playing && final(self).current_time == old(self).current_time
                && final(self).has_frame == old(self).has_frame,
    {
        match outcome {
            FrameOutcome::Frame(t) => {
                self.current_time = t;
                self.has_frame = true;
                false
            },
            FrameOutcome::End => {
                self.is_playing = false;
                self.current_time = 0;
                self.has_frame = false;
                true
            },
            FrameOutcome::Failed => {
                self.is_playing = false;
                false
            },
        }
    }

    /// Takes in the frame that a seek found, if any: its stamp becomes the
    /// current time.
    pub fn seeked(&mut self, found: Option<Time>)
        ensures
            found matches Some(t) ==> *final(self) == (EditorState {
                current_time: t,
                has_frame: true,
                ..*old(self)
            }),
            found is None ==> *final(self) == *old(self),
            found matches Some(t) ==> final(self).current_time == t && final(self).has_frame,
            found is None ==> final(self).current_time == old(self).current_time && final(self).has_frame
                == old(self).has_frame,
    {
        if let Some(t) = found {
            self.current_time = t;
            self.has_frame = true;
        }
    }

    /// Switches between playing and paused; the answer is `true` when
    /// playback starts with no frame shown, so that the decoder seeks to 0.
    pub fn toggle_play(&mut self) -> (seek_start: bool)
        ensures
            *final(self) == (EditorState { is_playing: !old(self).is_playing, ..*old(self) }),
            seek_start == (!old(self).is_playing && !old(self).has_frame),
    {
        self.is_playing = !self.is_playing;
        self.is_playing && !self.has_frame
    }

    /// Whether moving the position slider to `new_time` asks for a seek: it
    /// moved more than `SEEK_THRESHOLD` away from the current time.
    pub fn slider_seeks(&self, new_time: Time) -> (r: bool)
        ensures
            r == (new_time - self.current_time > SEEK_THRESHOLD || self.current_time - new_time
                > SEEK_THRESHOLD),
    {
        let d: i128 = new_time as i128 - self.current_time as i128;
        d > SEEK_THRESHOLD as i128 || -d > SEEK_THRESHOLD as i128
    }
}

} // verus!
