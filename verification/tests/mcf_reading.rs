use mcf_engine::mcf_in::{parse, pitches_in_range};

const SONG: &str = "# demo song\r\nproject: \"My Song\"\r\nbpm: 128.5\nkey: \"D#\"\nscale: \"Minor\"\n\ntr:\nt01, \"01-Bass\", midi, 0.7, -0.2\nt02, Lead, midi, 0.9\nt03, \"02 - Keys\", audio, x, 0.5\nnt:\nt01, C3, 90, 0.0, 1.5\nt01, F#2, loud, 1.0, 0.5\n# a comment\nt03, A, 100, 2, 1\nshort, line\n";

#[test]
fn reads_meta_entries() {
    assert!(pitches_in_range(SONG));
    let p = parse(SONG);
    assert_eq!(p.title, "My Song");
    assert_eq!(p.bpm, "128.5");
    assert_eq!(p.scale_root, "D#");
    assert_eq!(p.scale_name, "Minor");
}

#[test]
fn reads_tracks_with_five_fields() {
    let p = parse(SONG);
    assert_eq!(p.tracks.len(), 2);
    assert_eq!(p.tracks[0].id, "t01");
    assert_eq!(p.tracks[0].name, "Bass");
    assert_eq!(p.tracks[0].track_type, "midi");
    assert_eq!(p.tracks[0].volume, "0.7");
    assert_eq!(p.tracks[0].pan, "-0.2");
    assert_eq!(p.tracks[1].id, "t03");
    assert_eq!(p.tracks[1].name, "02 - Keys");
    assert_eq!(p.tracks[1].volume, "x");
}

#[test]
fn reads_notes() {
    let p = parse(SONG);
    assert_eq!(p.notes.len(), 3);
    assert_eq!(p.notes[0].track_id, "t01");
    assert_eq!(p.notes[0].pitch_name, "C3");
    assert_eq!(p.notes[0].pitch, 60);
    assert_eq!(p.notes[0].velocity, 90);
    assert_eq!(p.notes[0].start, "0.0");
    assert_eq!(p.notes[0].duration, "1.5");
    assert_eq!(p.notes[1].pitch, 54);
    assert_eq!(p.notes[1].velocity, 100);
    assert_eq!(p.notes[2].pitch, 69);
    assert_eq!(p.notes[2].start, "2");
}

#[test]
fn empty_text_gives_defaults() {
    let p = parse("");
    assert_eq!(p.title, "Unknown");
    assert_eq!(p.bpm, "");
    assert_eq!(p.scale_root, "C");
    assert_eq!(p.scale_name, "Major");
    assert!(p.tracks.is_empty());
    assert!(p.notes.is_empty());
}

#[test]
fn meta_lines_after_tracks_are_ignored() {
    let p = parse("tr:\nproject: Late\n");
    assert_eq!(p.title, "Unknown");
}

#[test]
fn comment_lines_change_nothing() {
    let with = parse("project: A\n# x\n  #y\ntr:\n#\nt1, n, midi, 1, 0\n");
    let without = parse("project: A\ntr:\nt1, n, midi, 1, 0\n");
    assert_eq!(with.title, without.title);
    assert_eq!(with.tracks.len(), without.tracks.len());
    assert_eq!(with.tracks[0].name, without.tracks[0].name);
}

#[test]
fn quotes_and_keys_removed_everywhere() {
    let p = parse("project: \"a\"project:b\"\n");
    assert_eq!(p.title, "ab");
}

#[test]
fn out_of_range_octave_is_reported() {
    assert!(!pitches_in_range("nt:\nt1, C999999999, 100, 0, 1\n"));
    assert!(pitches_in_range("nt:\nt1, C99999999, 100, 0, 1\n"));
    assert!(pitches_in_range("tr:\nt1, C999999999, 100, 0, 1\n"));
}

#[test]
fn trimming_follows_unicode_whitespace() {
    for u in 0u32..0x3100 {
        let c = match char::from_u32(u) {
            Some(c) => c,
            None => continue,
        };
        if c == '\n' {
            continue;
        }
        let raw = format!("project:{c}A{c}");
        let line = raw.trim();
        let expected = line.replace("project:", "").replace("\"", "").trim().to_string();
        let p = parse(&format!("{raw}\n"));
        if line.starts_with("project:") && !line.starts_with('#') {
            assert_eq!(p.title, expected, "character {:#x}", u);
        }
    }
}

#[test]
fn track_names_lose_a_leading_number() {
    let p = parse("tr:\na, \"12-Drums\", midi, 1, 0\nb, -Solo, midi, 1, 0\nc, x-y, midi, 1, 0\nd, 3- Pad , midi, 1, 0\n");
    assert_eq!(p.tracks[0].name, "Drums");
    assert_eq!(p.tracks[1].name, "Solo");
    assert_eq!(p.tracks[2].name, "x-y");
    assert_eq!(p.tracks[3].name, "Pad");
}

#[test]
fn note_pitches_follow_their_names() {
    let p = parse("nt:\na, C-2, 1, 0, 1\na, B8, 1, 0, 1\na, D#0, 1, 0, 1\na, ?, 1, 0, 1\n");
    let pitches: Vec<u8> = p.notes.iter().map(|n| n.pitch).collect();
    assert_eq!(pitches, vec![0, 131, 27, 60]);
    for n in &p.notes {
        assert_eq!(n.pitch, mcf_engine::pitch::name_to_pitch(&n.pitch_name));
    }
}
