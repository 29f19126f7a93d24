use mcf_engine::ableton_in::{parse, parse_compressed, ReadError};
use std::io::Write;

const SET: &str = r#"<?xml version="1.0" encoding="UTF-8"?>
<Ableton>
  <LiveSet>
    <MasterTrack><Tempo><Manual/></Tempo></MasterTrack>
    <Tempo><LomId Value="0"/><Manual Value="97.5"/></Tempo>
    <Tracks>
      <MidiTrack Id="8">
        <Name><EffectiveName Value="Bass"/></Name>
        <DeviceChain>
          <Mixer>
            <Volume><Manual Value="0.5"/></Volume>
            <Pan><Manual Value="-0.25"/></Pan>
          </Mixer>
          <MidiClip>
            <KeyTrack><MidiNoteEvent Time="0.5" Duration="0.25" Velocity="90" Key="61"/></KeyTrack>
            <KeyTrack><MidiNoteEvent Velocity="300"/></KeyTrack>
          </MidiClip>
        </DeviceChain>
      </MidiTrack>
      <AudioTrack Id="9">
        <Name><EffectiveName Value=""/></Name>
        <MidiNoteEvent Key="1"/>
      </AudioTrack>
    </Tracks>
  </LiveSet>
</Ableton>"#;

#[test]
fn reads_tempo_tracks_and_notes() {
    let p = parse(SET, "song").ok().unwrap();
    assert_eq!(p.title, "song");
    assert_eq!(p.bpm, "97.5");
    assert_eq!(p.scale_root, "C");
    assert_eq!(p.scale_name, "Major");
    assert_eq!(p.tracks.len(), 2);
    assert_eq!(p.tracks[0].id, "t01");
    assert_eq!(p.tracks[0].name, "Bass");
    assert_eq!(p.tracks[0].track_type, "midi");
    assert_eq!(p.tracks[0].volume, "0.5");
    assert_eq!(p.tracks[0].pan, "-0.25");
    assert_eq!(p.tracks[1].id, "t02");
    assert_eq!(p.tracks[1].name, "Track 2");
    assert_eq!(p.tracks[1].track_type, "audio");
    assert_eq!(p.tracks[1].volume, "");
    assert_eq!(p.tracks[1].pan, "");
}

#[test]
fn reads_note_attributes_with_defaults() {
    let p = parse(SET, "song").ok().unwrap();
    assert_eq!(p.notes.len(), 2);
    assert_eq!(p.notes[0].track_id, "t01");
    assert_eq!(p.notes[0].pitch, 61);
    assert_eq!(p.notes[0].pitch_name, "C#4");
    assert_eq!(p.notes[0].velocity, 90);
    assert_eq!(p.notes[0].start, "0.5");
    assert_eq!(p.notes[0].duration, "0.25");
    assert_eq!(p.notes[1].pitch, 60);
    assert_eq!(p.notes[1].pitch_name, "C4");
    assert_eq!(p.notes[1].velocity, 100);
    assert_eq!(p.notes[1].start, "0.0");
    assert_eq!(p.notes[1].duration, "1.0");
}

#[test]
fn ten_tracks_get_two_digit_ids() {
    let mut xml = String::from("<A>");
    for _ in 0..10 {
        xml.push_str("<AudioTrack/>");
    }
    xml.push_str("</A>");
    let p = parse(&xml, "x").ok().unwrap();
    assert_eq!(p.tracks[8].id, "t09");
    assert_eq!(p.tracks[9].id, "t10");
    assert_eq!(p.tracks[9].name, "Track 10");
    assert_eq!(p.bpm, "");
}

#[test]
fn bad_xml_is_an_xml_error() {
    assert!(matches!(parse("<a><b></a>", "x"), Err(ReadError::Xml(_))));
}

#[test]
fn compressed_set_reads_the_same() {
    let mut enc = flate2::write::GzEncoder::new(Vec::new(), flate2::Compression::default());
    enc.write_all(SET.as_bytes()).unwrap();
    let gz = enc.finish().unwrap();
    let p = parse_compressed(&gz, "song").ok().unwrap();
    assert_eq!(p.tracks.len(), 2);
    assert_eq!(p.notes[0].pitch, 61);
    assert_eq!(p.bpm, "97.5");
}

#[test]
fn uncompressed_bytes_are_a_decompress_error() {
    assert!(matches!(parse_compressed(SET.as_bytes(), "x"), Err(ReadError::Decompress(_))));
}

#[test]
fn notes_name_their_pitch_and_track() {
    let xml = "<A><MidiTrack><MidiNoteEvent Key=\"0\"/><MidiNoteEvent Key=\"127\"/></MidiTrack><MidiTrack><MidiNoteEvent Key=\"x\"/></MidiTrack></A>";
    let p = parse(xml, "x").ok().unwrap();
    assert_eq!(p.notes.len(), 3);
    for n in &p.notes {
        assert_eq!(n.pitch_name, mcf_engine::pitch::pitch_to_name(n.pitch));
        assert!(p.tracks.iter().any(|t| t.id == n.track_id));
    }
    assert_eq!(p.notes[0].pitch_name, "C-1");
    assert_eq!(p.notes[1].pitch_name, "G9");
    assert_eq!(p.notes[2].track_id, "t02");
}

#[test]
fn track_ids_are_distinct() {
    let mut xml = String::from("<A>");
    for _ in 0..120 {
        xml.push_str("<MidiTrack/>");
    }
    xml.push_str("</A>");
    let p = parse(&xml, "x").ok().unwrap();
    for i in 0..p.tracks.len() {
        for j in (i + 1)..p.tracks.len() {
            assert_ne!(p.tracks[i].id, p.tracks[j].id);
        }
    }
    assert_eq!(p.tracks[119].id, "t120");
}
