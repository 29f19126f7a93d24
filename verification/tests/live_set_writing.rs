use mcf_engine::ableton_out::{assemble, SetError, SetNumbers, WriteError};
use mcf_engine::project::{McfProject, Note, Track};
use std::io::{Read, Write};

const TEMPLATE: &str = "<Ableton><NextPointeeId Value=\"5\"/><Tempo><Manual Value=\"120\"/></Tempo><Tracks><MidiTrack Id=\"4\"><Name><EffectiveName Value=\"1-MIDI\"/></Name><Events /></MidiTrack></Tracks></Ableton>";

fn s(x: &str) -> String {
    x.to_string()
}

fn project() -> McfProject {
    McfProject {
        title: s("demo"),
        bpm: s("140"),
        scale_root: s("C"),
        scale_name: s("Major"),
        tracks: vec![
            Track { id: s("t01"), name: s("Bass"), track_type: s("midi"), volume: s("0.8"), pan: s("0") },
            Track { id: s("t02"), name: s("Empty"), track_type: s("midi"), volume: s("0.8"), pan: s("0") },
        ],
        notes: vec![
            Note { track_id: s("t01"), pitch_name: s("C3"), pitch: 60, velocity: 90, start: s("0"), duration: s("1") },
            Note { track_id: s("t01"), pitch_name: s("C2"), pitch: 48, velocity: 80, start: s("1"), duration: s("0.5") },
            Note { track_id: s("t01"), pitch_name: s("C3"), pitch: 60, velocity: 70, start: s("2"), duration: s("1") },
        ],
    }
}

fn numbers() -> SetNumbers {
    SetNumbers {
        bpm: s("140"),
        clip_lengths: vec![s("4"), s("4")],
        note_times: vec![s("0"), s("1"), s("2")],
        note_durations: vec![s("1"), s("0.5"), s("1")],
    }
}

const CLIP: &str = "<MidiClip Id=\"100001\"><CurrentStart Value=\"0\"/><CurrentEnd Value=\"4\"/><Loop><LoopStart Value=\"0\"/><LoopEnd Value=\"4\"/><StartRelative Value=\"0\"/><LoopOn Value=\"true\"/><HiddenLoopStart Value=\"0\"/><HiddenLoopEnd Value=\"4\"/></Loop><Name><EffectiveName Value=\"MCF Clip\"/></Name><Notes><KeyTracks><KeyTrack Id=\"100002\"><MidiKey Value=\"48\"/><Notes><MidiNoteEvent Time=\"1\" Duration=\"0.5\" Velocity=\"80\"/></Notes></KeyTrack><KeyTrack Id=\"100003\"><MidiKey Value=\"60\"/><Notes><MidiNoteEvent Time=\"0\" Duration=\"1\" Velocity=\"90\"/><MidiNoteEvent Time=\"2\" Duration=\"1\" Velocity=\"70\"/></Notes></KeyTrack></KeyTracks></Notes></MidiClip>";

fn expected() -> String {
    format!(
        "<Ableton><NextPointeeId Value=\"100007\"/><Tempo><Manual Value=\"140\"/></Tempo><Tracks><MidiTrack Id=\"100000\"><Name><EffectiveName Value=\"Bass\"/></Name><Events>{}</Events></MidiTrack><MidiTrack Id=\"100004\"><Name><EffectiveName Value=\"Empty\"/></Name><Events /></MidiTrack></Tracks></Ableton>",
        CLIP
    )
}

fn gz(text: &str) -> Vec<u8> {
    let mut enc = flate2::write::GzEncoder::new(Vec::new(), flate2::Compression::default());
    enc.write_all(text.as_bytes()).unwrap();
    enc.finish().unwrap()
}

#[test]
fn assembles_tracks_clips_and_ids() {
    let out = assemble(TEMPLATE, &project(), &numbers()).ok().unwrap();
    assert_eq!(out, expected());
}

#[test]
fn template_without_midi_track() {
    assert!(matches!(assemble("<Ableton/>", &project(), &numbers()), Err(SetError::NoMidiTrack)));
}

#[test]
fn template_with_unclosed_midi_track() {
    assert!(matches!(
        assemble("<Ableton><MidiTrack Id=\"1\"/></Ableton>", &project(), &numbers()),
        Err(SetError::NoClosingMidiTrack)
    ));
}

#[test]
fn project_without_tracks_keeps_template_shell() {
    let mut p = project();
    p.tracks.clear();
    let mut n = numbers();
    n.clip_lengths.clear();
    let out = assemble(TEMPLATE, &p, &n).ok().unwrap();
    assert_eq!(out, "<Ableton><NextPointeeId Value=\"100001\"/><Tempo><Manual Value=\"140\"/></Tempo><Tracks></Tracks></Ableton>");
}

#[test]
fn write_plain_gives_the_text() {
    let bytes = mcf_engine::ableton_out::write(&gz(TEMPLATE), &project(), &numbers(), false).ok().unwrap();
    assert_eq!(String::from_utf8(bytes).unwrap(), expected());
}

#[test]
fn write_compressed_decompresses_to_the_text() {
    let bytes = mcf_engine::ableton_out::write(&gz(TEMPLATE), &project(), &numbers(), true).ok().unwrap();
    assert_eq!(&bytes[0..2], &[0x1f, 0x8b]);
    let mut text = String::new();
    flate2::read::GzDecoder::new(&bytes[..]).read_to_string(&mut text).unwrap();
    assert_eq!(text, expected());
}

#[test]
fn write_rejects_uncompressed_template() {
    assert!(matches!(mcf_engine::ableton_out::write(TEMPLATE.as_bytes(), &project(), &numbers(), false), Err(WriteError::Template(_))));
}

#[test]
fn write_reports_template_layout_errors() {
    assert!(matches!(
        mcf_engine::ableton_out::write(&gz("<Ableton/>"), &project(), &numbers(), true),
        Err(WriteError::Layout(SetError::NoMidiTrack))
    ));
}

fn same_project(a: &McfProject, b: &McfProject) -> bool {
    a.title == b.title
        && a.bpm == b.bpm
        && a.scale_root == b.scale_root
        && a.scale_name == b.scale_name
        && a.tracks.len() == b.tracks.len()
        && a.tracks.iter().zip(b.tracks.iter()).all(|(x, y)| {
            x.id == y.id && x.name == y.name && x.track_type == y.track_type && x.volume == y.volume && x.pan == y.pan
        })
        && a.notes.len() == b.notes.len()
        && a.notes.iter().zip(b.notes.iter()).all(|(x, y)| {
            x.track_id == y.track_id
                && x.pitch_name == y.pitch_name
                && x.pitch == y.pitch
                && x.velocity == y.velocity
                && x.start == y.start
                && x.duration == y.duration
        })
}

#[test]
fn written_als_and_xml_read_the_same() {
    let als = mcf_engine::ableton_out::write(&gz(TEMPLATE), &project(), &numbers(), true).ok().unwrap();
    let xml = mcf_engine::ableton_out::write(&gz(TEMPLATE), &project(), &numbers(), false).ok().unwrap();
    let text = String::from_utf8(xml).unwrap();
    let from_als = mcf_engine::ableton_in::parse_compressed(&als, "x").ok().unwrap();
    let from_xml = mcf_engine::ableton_in::parse(&text, "x").ok().unwrap();
    assert!(same_project(&from_als, &from_xml));
    assert_eq!(from_als.tracks.len(), 2);
    assert_eq!(from_als.notes.len(), 3);
    assert_eq!(from_als.tracks[0].name, "Bass");
}

#[test]
fn compressed_bad_text_fails_like_plain() {
    let text = "<a><b></a>";
    assert!(mcf_engine::ableton_in::parse_compressed(&gz(text), "x").is_err());
    assert!(mcf_engine::ableton_in::parse(text, "x").is_err());
}
