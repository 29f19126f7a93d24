use mcf_engine::ableton_out::{inject_clip, replace_name, rewrite_ids, set_tempo, update_next_pointee_id};

#[test]
fn rewrite_ids_numbers_each_id_in_order() {
    let mut next = 100usize;
    let out = rewrite_ids("<a Id=\"5\"/><b Id=\"77\">x</b>", &mut next);
    assert_eq!(out, "<a Id=\"100\"/><b Id=\"101\">x</b>");
    assert_eq!(next, 102);
}

#[test]
fn rewrite_ids_without_ids_is_identity() {
    let mut next = 7usize;
    let out = rewrite_ids("<a Value=\"5\"/>", &mut next);
    assert_eq!(out, "<a Value=\"5\"/>");
    assert_eq!(next, 7);
}

#[test]
fn rewrite_ids_keeps_piece_without_quote() {
    let mut next = 3usize;
    let out = rewrite_ids("x Id=\"abc", &mut next);
    assert_eq!(out, "x Id=\"abc");
    assert_eq!(next, 3);
}

#[test]
fn rewrite_ids_replaces_only_up_to_first_quote() {
    let mut next = 10usize;
    let out = rewrite_ids("Id=\"1\" Other=\"2\"", &mut next);
    assert_eq!(out, "Id=\"10\" Other=\"2\"");
    assert_eq!(next, 11);
}

#[test]
fn replace_name_sets_effective_name() {
    let xml = "<Name><EffectiveName Value=\"Old\"/><UserName Value=\"\"/></Name>";
    assert_eq!(
        replace_name(xml, "Lead"),
        "<Name><EffectiveName Value=\"Lead\"/><UserName Value=\"\"/></Name>"
    );
}

#[test]
fn replace_name_only_first_and_missing_tag() {
    let xml = "<EffectiveName Value=\"A\"/><EffectiveName Value=\"B\"/>";
    assert_eq!(replace_name(xml, "C"), "<EffectiveName Value=\"C\"/><EffectiveName Value=\"B\"/>");
    assert_eq!(replace_name("<Other/>", "C"), "<Other/>");
    assert_eq!(replace_name("<EffectiveName Value=\"open", "C"), "<EffectiveName Value=\"open");
}

#[test]
fn replace_name_twice_keeps_second() {
    let xml = "<EffectiveName Value=\"Old\"/>";
    let once = replace_name(&replace_name(xml, "First"), "Second");
    assert_eq!(once, replace_name(xml, "Second"));
}

#[test]
fn update_next_pointee_id_sets_number() {
    let xml = "<Ableton><NextPointeeId Value=\"12\" /><X/></Ableton>";
    assert_eq!(
        update_next_pointee_id(xml, 100345),
        "<Ableton><NextPointeeId Value=\"100345\" /><X/></Ableton>"
    );
    assert_eq!(update_next_pointee_id("<A/>", 5), "<A/>");
}

#[test]
fn update_next_pointee_id_twice_keeps_second() {
    let xml = "<NextPointeeId Value=\"1\"/>";
    assert_eq!(update_next_pointee_id(&update_next_pointee_id(xml, 99), 7), update_next_pointee_id(xml, 7));
}

#[test]
fn set_tempo_replaces_tempo_element() {
    let xml = "<A><Tempo><LomId Value=\"0\"/><Manual Value=\"120\"/></Tempo><B/></A>";
    assert_eq!(set_tempo(xml, "98.5"), "<A><Tempo><Manual Value=\"98.5\"/></Tempo><B/></A>");
    assert_eq!(set_tempo("<A/>", "90"), "<A/>");
    assert_eq!(set_tempo("<Tempo><Manual/>", "90"), "<Tempo><Manual/>");
}

#[test]
fn set_tempo_twice_keeps_second() {
    let xml = "<Tempo><Manual Value=\"120\"/></Tempo>";
    assert_eq!(set_tempo(&set_tempo(xml, "80"), "140"), set_tempo(xml, "140"));
}

#[test]
fn inject_clip_after_events_open() {
    assert_eq!(inject_clip("<T><Events><E/></Events></T>", "<C/>"), "<T><Events><C/><E/></Events></T>");
}

#[test]
fn inject_clip_into_empty_events() {
    assert_eq!(inject_clip("<T><Events /></T>", "<C/>"), "<T><Events><C/></Events></T>");
    assert_eq!(inject_clip("<T><Events/></T>", "<C/>"), "<T><Events><C/></Events></T>");
    assert_eq!(inject_clip("<T></T>", "<C/>"), "<T></T>");
}

#[test]
fn rewrite_ids_count_does_not_depend_on_start() {
    let xml = "<a Id=\"1\"><b Id=\"2\"/><c Id=\"x</a>";
    let mut from_zero = 0usize;
    let _ = rewrite_ids(xml, &mut from_zero);
    let mut from_big = 5000usize;
    let _ = rewrite_ids(xml, &mut from_big);
    assert_eq!(from_zero, 2);
    assert_eq!(from_big, 5002);
}

#[test]
fn rewrite_ids_again_changes_nothing() {
    let xml = "<a Id=\"5\"><b Id=\"x\"Id=\"\"/>Id=\"7 Id=\"12\"</a><c Id=\"no quote";
    let mut first = 40usize;
    let once = rewrite_ids(xml, &mut first);
    let mut second = 40usize;
    let twice = rewrite_ids(&once, &mut second);
    assert_eq!(twice, once);
    assert_eq!(second, first);
    assert_eq!(once, "<a Id=\"40\"><b Id=\"41\"Id=\"42\"/>Id=\"7 Id=\"43\"</a><c Id=\"no quote");
    assert_eq!(first, 44);
}

#[test]
fn inject_clip_twice_puts_later_clip_first() {
    for track in ["<T><Events><E/></Events></T>", "<T><Events /></T>", "<T><Events/></T>", "<T></T>"] {
        assert_eq!(inject_clip(&inject_clip(track, "<A/>"), "<B/>"), inject_clip(track, "<B/><A/>"));
    }
    assert_eq!(inject_clip(&inject_clip("<T><Events /></T>", "<A/>"), "<B/>"), "<T><Events><B/><A/></Events></T>");
}

#[test]
fn set_tempo_twice_fails_when_first_tempo_closes_early() {
    let xml = "<Tempo><Manual Value=\"120\"/></Tempo>";
    let twice = set_tempo(&set_tempo(xml, "</Tempo>"), "9");
    assert_eq!(twice, "<Tempo><Manual Value=\"9\"/></Tempo>\"/></Tempo>");
    assert_ne!(twice, set_tempo(xml, "9"));
}

#[test]
fn writing_back_the_old_name_restores_the_track() {
    let xml = "<T><Name><EffectiveName Value=\"1-MIDI\"/></Name><EffectiveName Value=\"x\"/></T>";
    assert_eq!(replace_name(&replace_name(xml, "Bass"), "1-MIDI"), xml);
    assert_eq!(replace_name(&replace_name(xml, ""), "1-MIDI"), xml);
}

#[test]
fn set_tempo_twice_with_numbers_keeps_second() {
    let xml = "<A><Tempo><LomId Value=\"0\"/><Manual Value=\"120\"/></Tempo></A>";
    for a in ["98.5", "120", "-3", "1e20"] {
        assert_eq!(set_tempo(&set_tempo(xml, a), "140"), set_tempo(xml, "140"));
    }
}
