use vstd::prelude::*;

use crate::timeline::{Time, Timeline, initial_timeline};

verus! {

/// A media file imported into a project: its duration in microseconds and
/// its frame rate in frames per thousand seconds.
#[derive(Debug)]
pub struct MediaItem {
    pub id: String,
    pub path: String,
    pub name: String,
    pub duration: Time,
    pub width: u32,
    pub height: u32,
    pub frame_rate: u32,
}

impl Clone for MediaItem {
    fn clone(&self) -> (r: Self)
        ensures
            r == *self,
    {
        MediaItem {
            id: self.id.clone(),
            path: self.path.clone(),
            name: self.name.clone(),
            duration: self.duration,
            width: self.width,
            height: self.height,
            frame_rate: self.frame_rate,
        }
    }
}

/// A named export setting: frame size, frame rate in frames per thousand
/// seconds, bit rate, codec and container.
#[derive(Debug)]
pub struct ExportPreset {
    pub name: String,
    pub width: u32,
    pub height: u32,
    pub frame_rate: u32,
    pub bitrate: String,
    pub codec: String,
    pub container: String,
}

impl Clone for ExportPreset {
    fn clone(&self) -> (r: Self)
        ensures
            r == *self,
    {
        ExportPreset {
            name: self.name.clone(),
            width: self.width,
            height: self.height,
            frame_rate: self.frame_rate,
            bitrate: self.bitrate.clone(),
            codec: self.codec.clone(),
            container: self.container.clone(),
        }
    }
}

#[derive(Debug)]
pub struct Project {
    pub name: String,
    pub timeline: Timeline,
    pub media: Vec<MediaItem>,
}

fn clone_media(media: &Vec<MediaItem>) -> (r: Vec<MediaItem>)
    ensures
        r@ == media@,
{
    let mut r: Vec<MediaItem> = Vec::new();
    let n = media.len();
    for i in 0..n
        invariant
            n == media@.len(),
            r@ == media@.take(i as int),
    {
        r.push(media[i].clone());
        assert(r@ =~= media@.take(i + 1));
    }
    assert(media@.take(n as int) =~= media@);
    r
}

impl Clone for Project {
    fn clone(&self) -> (r: Self)
        ensures
            r.name == self.name,
            r.timeline@ == self.timeline@,
            r.media@ == self.media@,
    {
        Project {
            name: self.name.clone(),
            timeline: self.timeline.clone(),
            media: clone_media(&self.media),
        }
    }
}

impl Project {
    /// A project named `name` with a new timeline and no media.
    pub fn new(name: &str) -> (r: Self)
        ensures
            r.name@ == name@,
            r.timeline@ == initial_timeline(),
            r.media@ == Seq::<MediaItem>::empty(),
    {
        Project { name: String::from_str(name), timeline: Timeline::new(), media: Vec::new() }
    }
}

} // verus!
