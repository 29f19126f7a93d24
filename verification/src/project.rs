//! The project model shared by the readers and the writer.
//!
//! Numbers that the format keeps as floating point (tempo, volume, pan,
//! note start and duration) are held as the text they were read from; the
//! value is that text read as an `f32`, and where the text does not read as
//! one, the field's default: tempo 120, volume 0.85, pan 0, start 0,
//! duration 1.
use vstd::prelude::*;

verus! {

/// A project: its title, tempo, scale, tracks and notes.
pub struct McfProject {
    pub title: String,
    /// The tempo in beats per minute, as text.
    pub bpm: String,
    pub scale_root: String,
    pub scale_name: String,
    pub tracks: Vec<Track>,
    pub notes: Vec<Note>,
}

/// A track of a project.
pub struct Track {
    pub id: String,
    pub name: String,
    /// `midi` or `audio` for tracks read from a Live set.
    pub track_type: String,
    /// The volume, as text.
    pub volume: String,
    /// The pan position, as text.
    pub pan: String,
}

/// A note of a project, played on the track whose id is `track_id`.
pub struct Note {
    pub track_id: String,
    pub pitch_name: String,
    pub pitch: u8,
    pub velocity: u8,
    /// The start time in beats, as text.
    pub start: String,
    /// The length in beats, as text.
    pub duration: String,
}

/// The abstract value of a `Track`.
pub struct TrackModel {
    pub id: Seq<char>,
    pub name: Seq<char>,
    pub track_type: Seq<char>,
    pub volume: Seq<char>,
    pub pan: Seq<char>,
}

/// The abstract value of a `Note`.
pub struct NoteModel {
    pub track_id: Seq<char>,
    pub pitch_name: Seq<char>,
    pub pitch: u8,
    pub velocity: u8,
    pub start: Seq<char>,
    pub duration: Seq<char>,
}

/// The abstract value of a `McfProject`.
pub struct ProjectModel {
    pub title: Seq<char>,
    pub bpm: Seq<char>,
    pub scale_root: Seq<char>,
    pub scale_name: Seq<char>,
    pub tracks: Seq<TrackModel>,
    pub notes: Seq<NoteModel>,
}

impl View for Track {
    type V = TrackModel;

    open spec fn view(&self) -> TrackModel {
        TrackModel {
            id: self.id@,
            name: self.name@,
            track_type: self.track_type@,
            volume: self.volume@,
            pan: self.pan@,
        }
    }
}

impl View for Note {
    type V = NoteModel;

    open spec fn view(&self) -> NoteModel {
        NoteModel {
            track_id: self.track_id@,
            pitch_name: self.pitch_name@,
            pitch: self.pitch,
            velocity: self.velocity,
            start: self.start@,
            duration: self.duration@,
        }
    }
}

impl View for McfProject {
    type V = ProjectModel;

    open spec fn view(&self) -> ProjectModel {
        ProjectModel {
            title: self.title@,
            bpm: self.bpm@,
            scale_root: self.scale_root@,
            scale_name: self.scale_name@,
            tracks: self.tracks@.map_values(|t: Track| t@),
            notes: self.notes@.map_values(|n: Note| n@),
        }
    }
}

} // verus!
