use mcf_engine::pitch::{name_to_pitch, pitch_to_name};

#[test]
fn pitch_names() {
    assert_eq!(pitch_to_name(60), "C4");
    assert_eq!(pitch_to_name(61), "C#4");
    assert_eq!(pitch_to_name(0), "C-1");
    assert_eq!(pitch_to_name(10), "A#-1");
    assert_eq!(pitch_to_name(255), "D#20");
    assert_eq!(pitch_to_name(71), "B4");
}

#[test]
fn note_names_to_pitches() {
    assert_eq!(name_to_pitch("C4"), 72);
    assert_eq!(name_to_pitch("C#-1"), 13);
    assert_eq!(name_to_pitch("C-2"), 0);
    assert_eq!(name_to_pitch("A"), 69);
    assert_eq!(name_to_pitch("X9"), 132);
    assert_eq!(name_to_pitch("C999"), 255);
    assert_eq!(name_to_pitch("C-5"), 0);
    assert_eq!(name_to_pitch("G#3"), 68);
    assert_eq!(name_to_pitch("B--1"), 71);
}

#[test]
fn name_read_back_is_an_octave_up() {
    for p in 0u8..=255 {
        let expected = if p as u32 + 12 > 255 { 255 } else { p + 12 };
        assert_eq!(name_to_pitch(&pitch_to_name(p)), expected);
    }
}

#[test]
fn name_pitch_ignores_other_characters_and_order() {
    assert_eq!(name_to_pitch("4C"), 72);
    assert_eq!(name_to_pitch(" C 4 "), 72);
    assert_eq!(name_to_pitch("C4"), 72);
    assert_eq!(name_to_pitch("4F#"), name_to_pitch("F#4"));
    assert_eq!(name_to_pitch("F4#"), name_to_pitch("F#4"));
    assert_eq!(name_to_pitch("4#F"), 72);
}

#[test]
fn distinct_pitches_have_distinct_names() {
    let names: Vec<String> = (0u8..=255).map(pitch_to_name).collect();
    for i in 0..names.len() {
        for j in (i + 1)..names.len() {
            assert_ne!(names[i], names[j]);
        }
    }
}
