//! Reading a project from the XML of an Ableton Live set.
//!
//! The tempo is the manual value of the first `Tempo` element that has
//! one; each `MidiTrack` or `AudioTrack` element, in document order, gives
//! a track, and the `MidiNoteEvent` elements inside a MIDI track give its
//! notes.
use vstd::prelude::*;
use crate::gzip::{gunzip_text, gunzip_to_string};
use crate::numeral::{parse_u8, parse_u8_exec, lemma_decimal_reads_back};
use crate::pitch::{pitch_name, pitch_to_name};
use crate::project::{McfProject, Note, NoteModel, ProjectModel, Track, TrackModel};
use crate::text::{decimal, decimal_chars, extend_all, from_chars, to_chars};
use crate::xml::{parse_xml, xml_nodes, XmlAttribute, XmlNode, XmlNodeModel};

verus! {

/// One past the last node of the subtree of node `i`.
pub open spec fn subtree_end(ns: Seq<XmlNodeModel>, i: int) -> int {
    if i + ns[i].size > ns.len() {
        ns.len() as int
    } else {
        i + ns[i].size
    }
}

/// The first node in `lo..hi` whose tag is `tag`.
pub open spec fn first_tagged(ns: Seq<XmlNodeModel>, lo: int, hi: int, tag: Seq<char>) -> Option<int>
    decreases hi - lo,
{
    if lo >= hi {
        None
    } else if ns[lo].tag == tag {
        Some(lo)
    } else {
        first_tagged(ns, lo + 1, hi, tag)
    }
}

/// The first node in `lo..hi` that is a child of node `i` and has tag `tag`.
pub open spec fn first_child_from(ns: Seq<XmlNodeModel>, i: int, lo: int, hi: int, tag: Seq<char>) -> Option<int>
    decreases hi - lo,
{
    if lo >= hi {
        None
    } else if ns[lo].parent == Some(i as usize) && ns[lo].tag == tag {
        Some(lo)
    } else {
        first_child_from(ns, i, lo + 1, hi, tag)
    }
}

/// The first child of node `i` with tag `tag`.
pub open spec fn first_child_tagged(ns: Seq<XmlNodeModel>, i: int, tag: Seq<char>) -> Option<int> {
    first_child_from(ns, i, i + 1, subtree_end(ns, i), tag)
}

/// The value of the first attribute among the first `k` of `attrs` named
/// `name`.
pub open spec fn attr_among(attrs: Seq<(Seq<char>, Seq<char>)>, k: int, name: Seq<char>) -> Option<Seq<char>>
    decreases k,
{
    if k <= 0 {
        None
    } else {
        match attr_among(attrs, k - 1, name) {
            Some(v) => Some(v),
            None => if attrs[k - 1].0 == name { Some(attrs[k - 1].1) } else { None },
        }
    }
}

/// The value of the node's first attribute named `name`.
pub open spec fn attr(n: XmlNodeModel, name: Seq<char>) -> Option<Seq<char>> {
    attr_among(n.attributes, n.attributes.len() as int, name)
}

/// The `Value` of the first `Manual` child of node `i`.
pub open spec fn manual_value(ns: Seq<XmlNodeModel>, i: int) -> Option<Seq<char>> {
    match first_child_tagged(ns, i, "Manual"@) {
        Some(m) => attr(ns[m], "Value"@),
        None => None,
    }
}

/// The manual value of the first `Tempo` node at or after `lo` that has
/// one; empty (which reads as the default tempo) when there is none.
pub open spec fn tempo_from(ns: Seq<XmlNodeModel>, lo: int) -> Seq<char>
    decreases ns.len() - lo,
{
    if lo < 0 || lo >= ns.len() {
        Seq::empty()
    } else if ns[lo].tag == "Tempo"@ && manual_value(ns, lo) is Some {
        manual_value(ns, lo)->0
    } else {
        tempo_from(ns, lo + 1)
    }
}

/// A track element.
pub open spec fn is_track(n: XmlNodeModel) -> bool {
    n.tag == "MidiTrack"@ || n.tag == "AudioTrack"@
}

/// The id of the `k`th track: `t` and `k` with at least two digits.
pub open spec fn track_id_text(k: nat) -> Seq<char> {
    if k < 10 {
        "t0"@ + decimal(k)
    } else {
        "t"@ + decimal(k)
    }
}

/// The name of the track at node `i`, the `k`th track: the non-empty
/// `Value` of the first `EffectiveName` in its subtree, else `Track k`.
pub open spec fn track_name_at(ns: Seq<XmlNodeModel>, i: int, k: nat) -> Seq<char> {
    let default = "Track "@ + decimal(k);
    match first_tagged(ns, i, subtree_end(ns, i), "EffectiveName"@) {
        Some(e) => match attr(ns[e], "Value"@) {
            Some(v) => if v.len() > 0 { v } else { default },
            None => default,
        },
        None => default,
    }
}

/// The manual value of the first `part` (such as `Volume`) in the first
/// `Mixer` of the track at node `i`; empty (which reads as the default)
/// when there is none.
pub open spec fn mixer_value(ns: Seq<XmlNodeModel>, i: int, part: Seq<char>) -> Seq<char> {
    match first_tagged(ns, i, subtree_end(ns, i), "Mixer"@) {
        Some(mx) => match first_tagged(ns, mx, subtree_end(ns, mx), part) {
            Some(v) => match manual_value(ns, v) {
                Some(t) => t,
                None => Seq::empty(),
            },
            None => Seq::empty(),
        },
        None => Seq::empty(),
    }
}

/// The attribute `name` of `n`, or `default`.
pub open spec fn attr_or(n: XmlNodeModel, name: Seq<char>, default: Seq<char>) -> Seq<char> {
    match attr(n, name) {
        Some(v) => v,
        None => default,
    }
}

/// The text `s` read as a `u8`, or `default`.
pub open spec fn u8_or(s: Seq<char>, default: u8) -> u8 {
    match parse_u8(s) {
        Some(v) => v as u8,
        None => default,
    }
}

/// The note of a `MidiNoteEvent` node on the track with id `tid`: pitch
/// from `Key` (60 when missing or unreadable), velocity from `Velocity`
/// (100), start from `Time` (`0.0`) and length from `Duration` (`1.0`).
pub open spec fn note_at(n: XmlNodeModel, tid: Seq<char>) -> NoteModel {
    let pitch = u8_or(attr_or(n, "Key"@, "60"@), 60);
    NoteModel {
        track_id: tid,
        pitch_name: pitch_name(pitch as nat),
        pitch: pitch,
        velocity: u8_or(attr_or(n, "Velocity"@, "100"@), 100),
        start: attr_or(n, "Time"@, "0.0"@),
        duration: attr_or(n, "Duration"@, "1.0"@),
    }
}

/// The notes of the `MidiNoteEvent` nodes in `lo..hi`, in order, on the
/// track with id `tid`.
pub open spec fn notes_in(ns: Seq<XmlNodeModel>, lo: int, hi: int, tid: Seq<char>) -> Seq<NoteModel>
    decreases hi - lo,
{
    if lo >= hi {
        Seq::empty()
    } else {
        let rest = notes_in(ns, lo + 1, hi, tid);
        if ns[lo].tag == "MidiNoteEvent"@ {
            seq![note_at(ns[lo], tid)] + rest
        } else {
            rest
        }
    }
}

/// The track at node `i`, the `k`th track.
pub open spec fn track_at(ns: Seq<XmlNodeModel>, i: int, k: nat) -> TrackModel {
    TrackModel {
        id: track_id_text(k),
        name: track_name_at(ns, i, k),
        track_type: if ns[i].tag == "MidiTrack"@ { "midi"@ } else { "audio"@ },
        volume: mixer_value(ns, i, "Volume"@),
        pan: mixer_value(ns, i, "Pan"@),
    }
}

/// The notes of the track at node `i`, the `k`th track: those in its
/// subtree when it is a MIDI track, none otherwise.
pub open spec fn track_notes_at(ns: Seq<XmlNodeModel>, i: int, k: nat) -> Seq<NoteModel> {
    if ns[i].tag == "MidiTrack"@ {
        notes_in(ns, i, subtree_end(ns, i), track_id_text(k))
    } else {
        Seq::empty()
    }
}

/// The tracks and notes of the track nodes among the first `hi` nodes,
/// and the number of the next track.
pub open spec fn tracks_upto(ns: Seq<XmlNodeModel>, hi: int) -> (Seq<TrackModel>, Seq<NoteModel>, nat)
    decreases hi,
{
    if hi <= 0 {
        (Seq::empty(), Seq::empty(), 1)
    } else {
        let (ts, nts, k) = tracks_upto(ns, hi - 1);
        if is_track(ns[hi - 1]) {
            (ts.push(track_at(ns, hi - 1, k)), nts + track_notes_at(ns, hi - 1, k), k + 1)
        } else {
            (ts, nts, k)
        }
    }
}

/// The project that the nodes of a Live set describe, titled `title`; its
/// scale is the MCF default, C major.
pub open spec fn live_set_project(ns: Seq<XmlNodeModel>, title: Seq<char>) -> ProjectModel {
    let (ts, nts, k) = tracks_upto(ns, ns.len() as int);
    ProjectModel {
        title: title,
        bpm: tempo_from(ns, 0),
        scale_root: "C"@,
        scale_name: "Major"@,
        tracks: ts,
        notes: nts,
    }
}

/// The number of track nodes.
pub open spec fn track_count(ns: Seq<XmlNodeModel>) -> nat {
    (tracks_upto(ns, ns.len() as int).2 - 1) as nat
}

/// The notes of a range all belong to the given track and carry the name
/// of their pitch.
proof fn lemma_notes_in_shape(ns: Seq<XmlNodeModel>, lo: int, hi: int, tid: Seq<char>)
    ensures
        forall|j: int| 0 <= j < notes_in(ns, lo, hi, tid).len() ==> {
            &&& (#[trigger] notes_in(ns, lo, hi, tid)[j]).track_id == tid
            &&& notes_in(ns, lo, hi, tid)[j].pitch_name == pitch_name(notes_in(ns, lo, hi, tid)[j].pitch as nat)
        },
    decreases hi - lo,
{
    if lo < hi {
        lemma_notes_in_shape(ns, lo + 1, hi, tid);
        let rest = notes_in(ns, lo + 1, hi, tid);
        if ns[lo].tag == "MidiNoteEvent"@ {
            let all = notes_in(ns, lo, hi, tid);
            assert forall|j: int| 0 <= j < all.len() implies (#[trigger] all[j]).track_id == tid
                && all[j].pitch_name == pitch_name(all[j].pitch as nat) by {
                if j > 0 {
                    assert(all[j] == rest[j - 1]);
                }
            }
        }
    }
}

/// Every note read from the first `hi` nodes carries the name of its pitch
/// and belongs to a track read from them.
proof fn lemma_tracks_upto_notes(ns: Seq<XmlNodeModel>, hi: int)
    ensures
        forall|j: int| 0 <= j < tracks_upto(ns, hi).1.len() ==> {
            &&& (#[trigger] tracks_upto(ns, hi).1[j]).pitch_name == pitch_name(tracks_upto(ns, hi).1[j].pitch as nat)
            &&& exists|t: int| 0 <= t < tracks_upto(ns, hi).0.len()
                && #[trigger] tracks_upto(ns, hi).0[t].id == tracks_upto(ns, hi).1[j].track_id
        },
    decreases hi,
{
    if hi > 0 {
        lemma_tracks_upto_notes(ns, hi - 1);
        let (ts, nts, k) = tracks_upto(ns, hi - 1);
        let cur = tracks_upto(ns, hi);
        if is_track(ns[hi - 1]) {
            let added = track_notes_at(ns, hi - 1, k);
            assert(cur.0 == ts.push(track_at(ns, hi - 1, k)));
            assert(cur.1 == nts + added);
            if ns[hi - 1].tag == "MidiTrack"@ {
                lemma_notes_in_shape(ns, hi - 1, subtree_end(ns, hi - 1), track_id_text(k));
            }
            assert forall|j: int| 0 <= j < cur.1.len() implies (#[trigger] cur.1[j]).pitch_name == pitch_name(cur.1[j].pitch as nat)
                && exists|t: int| 0 <= t < cur.0.len() && #[trigger] cur.0[t].id == cur.1[j].track_id by {
                if j < nts.len() {
                    assert(cur.1[j] == nts[j]);
                    assert(nts[j].pitch_name == pitch_name(nts[j].pitch as nat));
                    let t = choose|t: int| 0 <= t < ts.len() && #[trigger] ts[t].id == nts[j].track_id;
                    assert(cur.0[t] == ts[t]);
                } else {
                    assert(cur.1[j] == added[j - nts.len()]);
                    assert(cur.0[ts.len() as int].id == track_id_text(k));
                }
            }
        } else {
            assert(cur == tracks_upto(ns, hi - 1));
        }
    }
}

/// Every note read from a Live set carries the name of its pitch and
/// belongs to one of the tracks read.
pub proof fn law_live_set_notes(ns: Seq<XmlNodeModel>, title: Seq<char>)
    ensures
        forall|j: int| 0 <= j < live_set_project(ns, title).notes.len() ==> {
            &&& (#[trigger] live_set_project(ns, title).notes[j]).pitch_name
                == pitch_name(live_set_project(ns, title).notes[j].pitch as nat)
            &&& exists|t: int| 0 <= t < live_set_project(ns, title).tracks.len()
                && #[trigger] live_set_project(ns, title).tracks[t].id == live_set_project(ns, title).notes[j].track_id
        },
{
    lemma_tracks_upto_notes(ns, ns.len() as int);
    let p = live_set_project(ns, title);
    let cur = tracks_upto(ns, ns.len() as int);
    assert(p.tracks == cur.0 && p.notes == cur.1);
}

/// The `t`th track read from the first `hi` nodes is the `t + 1`th track.
proof fn lemma_tracks_upto_ids(ns: Seq<XmlNodeModel>, hi: int)
    ensures
        tracks_upto(ns, hi).2 == tracks_upto(ns, hi).0.len() + 1,
        forall|t: int| 0 <= t < tracks_upto(ns, hi).0.len() ==>
            (#[trigger] tracks_upto(ns, hi).0[t]).id == track_id_text((t + 1) as nat),
    decreases hi,
{
    if hi > 0 {
        lemma_tracks_upto_ids(ns, hi - 1);
        let (ts, nts, k) = tracks_upto(ns, hi - 1);
        let cur = tracks_upto(ns, hi);
        if is_track(ns[hi - 1]) {
            assert(cur.0 == ts.push(track_at(ns, hi - 1, k)));
            assert forall|t: int| 0 <= t < cur.0.len() implies
                (#[trigger] cur.0[t]).id == track_id_text((t + 1) as nat) by {
                if t < ts.len() {
                    assert(cur.0[t] == ts[t]);
                }
            }
        } else {
            assert(cur == tracks_upto(ns, hi - 1));
        }
    }
}

/// The numeral of a positive number does not start with `0`.
proof fn lemma_decimal_leading(n: nat)
    requires
        n >= 1,
    ensures
        decimal(n)[0] != '0',
        n >= 10 ==> decimal(n).len() >= 2,
    decreases n,
{
    if n >= 10 {
        lemma_decimal_leading(n / 10);
        assert(decimal(n)[0] == decimal(n / 10)[0]);
    }
}

/// Different track numbers give different track ids.
proof fn lemma_track_ids_differ(a: nat, b: nat)
    requires
        1 <= a < b,
    ensures
        track_id_text(a) != track_id_text(b),
{
    lemma_decimal_reads_back(a);
    lemma_decimal_reads_back(b);
    let ia = track_id_text(a);
    let ib = track_id_text(b);
    reveal_strlit("t0");
    reveal_strlit("t");
    if ia == ib {
        if a < 10 && b < 10 {
            assert(ia.skip(2) =~= decimal(a));
            assert(ib.skip(2) =~= decimal(b));
        } else if a >= 10 && b >= 10 {
            assert(ia.skip(1) =~= decimal(a));
            assert(ib.skip(1) =~= decimal(b));
        } else {
            lemma_decimal_leading(b);
            assert(ia[1] == '0');
            assert(ib[1] == decimal(b)[0]);
        }
    }
}

/// The tracks read from a Live set have distinct ids.
pub proof fn law_live_set_track_ids(ns: Seq<XmlNodeModel>, title: Seq<char>)
    ensures
        forall|s: int, t: int| 0 <= s < t < live_set_project(ns, title).tracks.len() ==>
            #[trigger] live_set_project(ns, title).tracks[s].id != #[trigger] live_set_project(ns, title).tracks[t].id,
{
    lemma_tracks_upto_ids(ns, ns.len() as int);
    let p = live_set_project(ns, title);
    let cur = tracks_upto(ns, ns.len() as int);
    assert(p.tracks == cur.0);
    assert forall|s: int, t: int| 0 <= s < t < p.tracks.len() implies
        #[trigger] p.tracks[s].id != #[trigger] p.tracks[t].id by {
        assert(cur.0[s].id == track_id_text((s + 1) as nat));
        assert(cur.0[t].id == track_id_text((t + 1) as nat));
        lemma_track_ids_differ((s + 1) as nat, (t + 1) as nat);
    }
}

/// The tracks read from the first `hi` nodes are those of the nodes among
/// them that `f` picks, in order, and typed by their tag.
proof fn lemma_tracks_upto_filter(ns: Seq<XmlNodeModel>, hi: int, f: spec_fn(XmlNodeModel) -> bool)
    requires
        0 <= hi <= ns.len(),
        forall|n: XmlNodeModel| #[trigger] f(n) == is_track(n),
    ensures
        tracks_upto(ns, hi).0.len() == ns.take(hi).filter(f).len(),
        tracks_upto(ns, hi).2 == ns.take(hi).filter(f).len() + 1,
        forall|t: int| 0 <= t < tracks_upto(ns, hi).0.len() ==>
            (#[trigger] tracks_upto(ns, hi).0[t]).track_type
                == if ns.take(hi).filter(f)[t].tag == "MidiTrack"@ { "midi"@ } else { "audio"@ },
    decreases hi,
{
    reveal_with_fuel(Seq::<_>::filter, 1);
    if hi == 0 {
        assert(ns.take(0) =~= Seq::<XmlNodeModel>::empty());
    } else {
        lemma_tracks_upto_filter(ns, hi - 1, f);
        let s = ns.take(hi);
        assert(s.drop_last() =~= ns.take(hi - 1));
        assert(s.last() == ns[hi - 1]);
        let prev = ns.take(hi - 1).filter(f);
        let (ts, nts, k) = tracks_upto(ns, hi - 1);
        if f(ns[hi - 1]) {
            assert(s.filter(f) == prev.push(ns[hi - 1]));
            let cur = tracks_upto(ns, hi).0;
            assert(cur == ts.push(track_at(ns, hi - 1, k)));
            assert forall|t: int| 0 <= t < cur.len() implies (#[trigger] cur[t]).track_type
                == if s.filter(f)[t].tag == "MidiTrack"@ { "midi"@ } else { "audio"@ } by {
                if t < ts.len() {
                    assert(cur[t] == ts[t]);
                    assert(s.filter(f)[t] == prev[t]);
                }
            }
        } else {
            assert(s.filter(f) == prev);
        }
    }
}

/// The tracks read from a Live set are its elements tagged exactly
/// `MidiTrack` or `AudioTrack`, one each and in document order: a
/// `MidiTrack` gives a `midi` track, an `AudioTrack` an `audio` one, and
/// an element with any other tag gives none.
pub proof fn law_live_set_tracks(ns: Seq<XmlNodeModel>, title: Seq<char>)
    ensures
        ({
            let tn = ns.filter(|n: XmlNodeModel| n.tag == "MidiTrack"@ || n.tag == "AudioTrack"@);
            let p = live_set_project(ns, title);
            &&& p.tracks.len() == tn.len()
            &&& track_count(ns) == tn.len()
            &&& forall|t: int| 0 <= t < p.tracks.len() ==>
                (#[trigger] p.tracks[t]).track_type == if tn[t].tag == "MidiTrack"@ { "midi"@ } else { "audio"@ }
        }),
{
    let f = |n: XmlNodeModel| n.tag == "MidiTrack"@ || n.tag == "AudioTrack"@;
    lemma_tracks_upto_filter(ns, ns.len() as int, f);
    assert(ns.take(ns.len() as int) =~= ns);
}

/// `note` is what the `MidiNoteEvent` node `n` says: its `Key` read as a
/// `u8` as pitch (60 when missing or unreadable), its `Velocity` read as a
/// `u8` as velocity, whatever its value (100 when missing or unreadable),
/// its `Time` as start (`0.0`) and its `Duration` as length (`1.0`).
pub open spec fn read_from_event(n: XmlNodeModel, note: NoteModel) -> bool {
    &&& note.pitch as int == (match attr(n, "Key"@) {
        Some(s) => match parse_u8(s) {
            Some(v) => v,
            None => 60,
        },
        None => 60,
    })
    &&& note.velocity as int == (match attr(n, "Velocity"@) {
        Some(s) => match parse_u8(s) {
            Some(v) => v,
            None => 100,
        },
        None => 100,
    })
    &&& note.start == (match attr(n, "Time"@) {
        Some(t) => t,
        None => "0.0"@,
    })
    &&& note.duration == (match attr(n, "Duration"@) {
        Some(d) => d,
        None => "1.0"@,
    })
}

/// `note` is the note of the `MidiNoteEvent` node `i`, on its own track.
spec fn from_event(ns: Seq<XmlNodeModel>, i: int, note: NoteModel) -> bool {
    &&& 0 <= i < ns.len()
    &&& ns[i].tag == "MidiNoteEvent"@
    &&& note == note_at(ns[i], note.track_id)
}

/// `note` is the note of a `MidiNoteEvent` node in `lo..hi`.
spec fn from_event_in(ns: Seq<XmlNodeModel>, lo: int, hi: int, note: NoteModel) -> bool {
    exists|i: int| lo <= i < hi && #[trigger] from_event(ns, i, note)
}

/// Each note of a range is the note of a `MidiNoteEvent` node in it.
proof fn lemma_notes_in_events(ns: Seq<XmlNodeModel>, lo: int, hi: int, tid: Seq<char>)
    requires
        0 <= lo,
        hi <= ns.len(),
    ensures
        forall|j: int| 0 <= j < notes_in(ns, lo, hi, tid).len()
            ==> from_event_in(ns, lo, hi, #[trigger] notes_in(ns, lo, hi, tid)[j]),
    decreases hi - lo,
{
    if lo < hi {
        lemma_notes_in_events(ns, lo + 1, hi, tid);
        let rest = notes_in(ns, lo + 1, hi, tid);
        let all = notes_in(ns, lo, hi, tid);
        assert forall|j: int| 0 <= j < all.len()
            implies from_event_in(ns, lo, hi, #[trigger] all[j]) by {
            if ns[lo].tag == "MidiNoteEvent"@ && j == 0 {
                assert(all[0] == note_at(ns[lo], tid));
                assert(from_event(ns, lo, all[0]));
            } else {
                let r = if ns[lo].tag == "MidiNoteEvent"@ { j - 1 } else { j };
                assert(all[j] == rest[r]);
                assert(from_event_in(ns, lo + 1, hi, rest[r]));
                let i = choose|i: int| lo + 1 <= i < hi && #[trigger] from_event(ns, i, rest[r]);
                assert(from_event(ns, i, all[j]));
            }
        }
    } else {
        assert(notes_in(ns, lo, hi, tid).len() == 0);
    }
}

/// Each note read from the first `hi` nodes is the note of a
/// `MidiNoteEvent` node.
proof fn lemma_tracks_upto_events(ns: Seq<XmlNodeModel>, hi: int)
    requires
        0 <= hi <= ns.len(),
    ensures
        forall|j: int| 0 <= j < tracks_upto(ns, hi).1.len()
            ==> from_event_in(ns, 0, ns.len() as int, #[trigger] tracks_upto(ns, hi).1[j]),
    decreases hi,
{
    if hi > 0 {
        lemma_tracks_upto_events(ns, hi - 1);
        let (ts, nts, k) = tracks_upto(ns, hi - 1);
        let cur = tracks_upto(ns, hi).1;
        if is_track(ns[hi - 1]) {
            let added = track_notes_at(ns, hi - 1, k);
            assert(cur == nts + added);
            let tid = track_id_text(k);
            if ns[hi - 1].tag == "MidiTrack"@ {
                lemma_notes_in_events(ns, hi - 1, subtree_end(ns, hi - 1), tid);
            }
            assert forall|j: int| 0 <= j < cur.len()
                implies from_event_in(ns, 0, ns.len() as int, #[trigger] cur[j]) by {
                if j < nts.len() {
                    assert(cur[j] == nts[j]);
                    assert(from_event_in(ns, 0, ns.len() as int, nts[j]));
                } else {
                    assert(cur[j] == added[j - nts.len()]);
                    let a = added[j - nts.len()];
                    assert(from_event_in(ns, hi - 1, subtree_end(ns, hi - 1), a));
                    let i = choose|i: int| hi - 1 <= i < subtree_end(ns, hi - 1) && #[trigger] from_event(ns, i, a);
                    assert(from_event(ns, i, cur[j]));
                }
            }
        } else {
            assert(cur == nts);
        }
    }
}

/// `note` is what some `MidiNoteEvent` element among `ns` says.
pub open spec fn read_from_some_event(ns: Seq<XmlNodeModel>, note: NoteModel) -> bool {
    exists|i: int| 0 <= i < ns.len() && ns[i].tag == "MidiNoteEvent"@ && #[trigger] read_from_event(ns[i], note)
}

/// A `u8` read from text lies in `0..=255`.
proof fn lemma_parse_u8_range(s: Seq<char>)
    ensures
        parse_u8(s) matches Some(v) ==> 0 <= v <= 255,
{
}

/// The default texts of a note's key and velocity read as 60 and 100.
proof fn lemma_note_defaults()
    ensures
        parse_u8("60"@) == Some(60int),
        parse_u8("100"@) == Some(100int),
{
    reveal_strlit("60");
    reveal_strlit("100");
    reveal_with_fuel(crate::numeral::digits_value, 4);
    assert("60"@.drop_last() =~= seq!['6']);
    assert(seq!['6'].drop_last() =~= Seq::<char>::empty());
    assert("100"@.drop_last() =~= seq!['1', '0']);
    assert(seq!['1', '0'].drop_last() =~= seq!['1']);
    assert(seq!['1'].drop_last() =~= Seq::<char>::empty());
}

/// Every note read from a Live set is what some `MidiNoteEvent` element
/// of it says: pitch, velocity, start and length come from its `Key`,
/// `Velocity`, `Time` and `Duration`, taken as they are when they read,
/// and only the missing or unreadable ones give the defaults.
pub proof fn law_live_set_note_fields(ns: Seq<XmlNodeModel>, title: Seq<char>)
    ensures
        forall|j: int| 0 <= j < live_set_project(ns, title).notes.len()
            ==> read_from_some_event(ns, #[trigger] live_set_project(ns, title).notes[j]),
{
    lemma_tracks_upto_events(ns, ns.len() as int);
    let p = live_set_project(ns, title);
    let cur = tracks_upto(ns, ns.len() as int).1;
    assert(p.notes == cur);
    assert forall|j: int| 0 <= j < p.notes.len() implies read_from_some_event(ns, #[trigger] p.notes[j]) by {
        assert(p.notes[j] == cur[j]);
        assert(from_event_in(ns, 0, ns.len() as int, cur[j]));
        let i = choose|i: int| 0 <= i < ns.len() && #[trigger] from_event(ns, i, cur[j]);
        let n = ns[i];
        let note = p.notes[j];
        assert(note == note_at(n, note.track_id));
        lemma_parse_u8_range(attr_or(n, "Key"@, "60"@));
        lemma_parse_u8_range(attr_or(n, "Velocity"@, "100"@));
        lemma_note_defaults();
        assert(read_from_event(ns[i], note));
    }
}

/// The abstract values of a list of nodes.
pub open spec fn nodes_view(ns: Seq<XmlNode>) -> Seq<XmlNodeModel> {
    ns.map_values(|n: XmlNode| n@)
}

/// A text as a `String`.
fn string_of(s: &str) -> (r: String)
    ensures
        r@ == s@,
{
    from_chars(&to_chars(s))
}

/// The names that reading a Live set looks for.
struct Names {
    tempo: String,
    manual: String,
    value: String,
    midi_track: String,
    audio_track: String,
    effective_name: String,
    mixer: String,
    volume: String,
    pan: String,
    note_event: String,
    key: String,
    velocity: String,
    time: String,
    duration: String,
}

spec fn names_ok(n: Names) -> bool {
    &&& n.tempo@ == "Tempo"@
    &&& n.manual@ == "Manual"@
    &&& n.value@ == "Value"@
    &&& n.midi_track@ == "MidiTrack"@
    &&& n.audio_track@ == "AudioTrack"@
    &&& n.effective_name@ == "EffectiveName"@
    &&& n.mixer@ == "Mixer"@
    &&& n.volume@ == "Volume"@
    &&& n.pan@ == "Pan"@
    &&& n.note_event@ == "MidiNoteEvent"@
    &&& n.key@ == "Key"@
    &&& n.velocity@ == "Velocity"@
    &&& n.time@ == "Time"@
    &&& n.duration@ == "Duration"@
}

fn make_names() -> (n: Names)
    ensures
        names_ok(n),
{
    Names {
        tempo: string_of("Tempo"),
        manual: string_of("Manual"),
        value: string_of("Value"),
        midi_track: string_of("MidiTrack"),
        audio_track: string_of("AudioTrack"),
        effective_name: string_of("EffectiveName"),
        mixer: string_of("Mixer"),
        volume: string_of("Volume"),
        pan: string_of("Pan"),
        note_event: string_of("MidiNoteEvent"),
        key: string_of("Key"),
        velocity: string_of("Velocity"),
        time: string_of("Time"),
        duration: string_of("Duration"),
    }
}

/// One past the last node of the subtree of node `i`.
fn subtree_end_exec(ns: &Vec<XmlNode>, i: usize) -> (e: usize)
    requires
        i < ns.len(),
    ensures
        e == subtree_end(nodes_view(ns@), i as int),
        i <= e <= ns.len(),
{
    assert(nodes_view(ns@)[i as int] == ns@[i as int]@);
    if ns[i].size > ns.len() - i {
        ns.len()
    } else {
        i + ns[i].size
    }
}

/// The first node in `lo..hi` whose tag is `tag`.
fn first_tagged_exec(ns: &Vec<XmlNode>, lo: usize, hi: usize, tag: &String) -> (r: Option<usize>)
    requires
        hi <= ns.len(),
    ensures
        match r {
            Some(j) => first_tagged(nodes_view(ns@), lo as int, hi as int, tag@) == Some(j as int) && lo <= j < hi,
            None => first_tagged(nodes_view(ns@), lo as int, hi as int, tag@) is None,
        },
{
    let ghost v = nodes_view(ns@);
    let mut j = lo;
    while j < hi
        invariant
            lo <= j,
            hi <= ns.len(),
            v == nodes_view(ns@),
            first_tagged(v, lo as int, hi as int, tag@) == first_tagged(v, j as int, hi as int, tag@),
        decreases hi - j,
    {
        assert(v[j as int] == ns@[j as int]@);
        if ns[j].tag == *tag {
            return Some(j);
        }
        j = j + 1;
    }
    None
}

/// The first child of node `i` with tag `tag`.
fn first_child_exec(ns: &Vec<XmlNode>, i: usize, tag: &String) -> (r: Option<usize>)
    requires
        i < ns.len(),
    ensures
        match r {
            Some(j) => first_child_tagged(nodes_view(ns@), i as int, tag@) == Some(j as int) && j < ns.len(),
            None => first_child_tagged(nodes_view(ns@), i as int, tag@) is None,
        },
{
    let ghost v = nodes_view(ns@);
    let hi = subtree_end_exec(ns, i);
    let mut j = i + 1;
    while j < hi
        invariant
            hi <= ns.len(),
            i < j,
            v == nodes_view(ns@),
            hi == subtree_end(v, i as int),
            first_child_tagged(v, i as int, tag@) == first_child_from(v, i as int, j as int, hi as int, tag@),
        decreases hi - j,
    {
        assert(v[j as int] == ns@[j as int]@);
        if ns[j].parent == Some(i) && ns[j].tag == *tag {
            return Some(j);
        }
        j = j + 1;
    }
    None
}

/// The value of the node's first attribute named `name`.
fn attr_exec(n: &XmlNode, name: &String) -> (r: Option<String>)
    ensures
        match r {
            Some(v) => attr(n@, name@) == Some(v@),
            None => attr(n@, name@) is None,
        },
{
    let ghost a = n@.attributes;
    let mut k: usize = 0;
    while k < n.attributes.len()
        invariant
            k <= n.attributes.len(),
            a == n.attributes@.map_values(|x: XmlAttribute| x@),
            attr_among(a, k as int, name@) is None,
        decreases n.attributes.len() - k,
    {
        assert(a[k as int] == n.attributes@[k as int]@);
        if n.attributes[k].name == *name {
            let v = n.attributes[k].value.clone();
            proof {
                lemma_attr_among_found(a, k as int + 1, n.attributes.len() as int, name@);
            }
            return Some(v);
        }
        k = k + 1;
    }
    None
}

/// Once an attribute is found among the first `k`, more attributes do not
/// change it.
proof fn lemma_attr_among_found(a: Seq<(Seq<char>, Seq<char>)>, k: int, m: int, name: Seq<char>)
    requires
        0 < k <= m,
        attr_among(a, k, name) is Some,
    ensures
        attr_among(a, m, name) == attr_among(a, k, name),
    decreases m - k,
{
    if k < m {
        lemma_attr_among_found(a, k, m - 1, name);
    }
}

/// The `Value` of the first `Manual` child of node `i`.
fn manual_value_exec(ns: &Vec<XmlNode>, i: usize, names: &Names) -> (r: Option<String>)
    requires
        i < ns.len(),
        names_ok(*names),
    ensures
        match r {
            Some(v) => manual_value(nodes_view(ns@), i as int) == Some(v@),
            None => manual_value(nodes_view(ns@), i as int) is None,
        },
{
    match first_child_exec(ns, i, &names.manual) {
        Some(m) => {
            assert(nodes_view(ns@)[m as int] == ns@[m as int]@);
            attr_exec(&ns[m], &names.value)
        },
        None => None,
    }
}

/// The tempo text of a Live set (see `tempo_from`).
fn tempo_exec(ns: &Vec<XmlNode>, names: &Names) -> (r: String)
    requires
        names_ok(*names),
    ensures
        r@ == tempo_from(nodes_view(ns@), 0),
{
    let ghost v = nodes_view(ns@);
    let mut i: usize = 0;
    while i < ns.len()
        invariant
            v == nodes_view(ns@),
            names_ok(*names),
            tempo_from(v, 0) == tempo_from(v, i as int),
        decreases ns.len() - i,
    {
        assert(v[i as int] == ns@[i as int]@);
        if ns[i].tag == names.tempo {
            match manual_value_exec(ns, i, names) {
                Some(t) => {
                    return t;
                },
                None => {},
            }
        }
        i = i + 1;
    }
    String::new()
}

/// The id of the `k`th track.
fn track_id_exec(k: usize) -> (r: Vec<char>)
    ensures
        r@ == track_id_text(k as nat),
{
    let mut r: Vec<char> = Vec::new();
    r.push('t');
    if k < 10 {
        r.push('0');
    }
    extend_all(&mut r, &decimal_chars(k));
    proof {
        reveal_strlit("t0");
        reveal_strlit("t");
    }
    assert(r@ =~= track_id_text(k as nat));
    r
}

/// The name of the track at node `i`, the `k`th track.
fn track_name_exec(ns: &Vec<XmlNode>, i: usize, k: usize, names: &Names) -> (r: String)
    requires
        i < ns.len(),
        names_ok(*names),
    ensures
        r@ == track_name_at(nodes_view(ns@), i as int, k as nat),
{
    let mut d = to_chars("Track ");
    extend_all(&mut d, &decimal_chars(k));
    let hi = subtree_end_exec(ns, i);
    match first_tagged_exec(ns, i, hi, &names.effective_name) {
        Some(e) => {
            assert(nodes_view(ns@)[e as int] == ns@[e as int]@);
            match attr_exec(&ns[e], &names.value) {
                Some(v) => {
                    if v.as_str().unicode_len() > 0 {
                        v
                    } else {
                        from_chars(&d)
                    }
                },
                None => from_chars(&d),
            }
        },
        None => from_chars(&d),
    }
}

/// The manual value of the first `part` in the first `Mixer` of the track
/// at node `i`.
fn mixer_value_exec(ns: &Vec<XmlNode>, i: usize, part: &String, names: &Names) -> (r: String)
    requires
        i < ns.len(),
        names_ok(*names),
    ensures
        r@ == mixer_value(nodes_view(ns@), i as int, part@),
{
    let hi = subtree_end_exec(ns, i);
    match first_tagged_exec(ns, i, hi, &names.mixer) {
        Some(mx) => {
            let mhi = subtree_end_exec(ns, mx);
            match first_tagged_exec(ns, mx, mhi, part) {
                Some(v) => match manual_value_exec(ns, v, names) {
                    Some(t) => t,
                    None => String::new(),
                },
                None => String::new(),
            }
        },
        None => String::new(),
    }
}

/// The attribute `name` of `n`, or the text `default`.
fn attr_or_exec(n: &XmlNode, name: &String, default: &str) -> (r: String)
    ensures
        r@ == attr_or(n@, name@, default@),
{
    match attr_exec(n, name) {
        Some(v) => v,
        None => string_of(default),
    }
}

/// The note of a `MidiNoteEvent` node on the track with id `tid`.
fn note_exec(n: &XmlNode, tid: &Vec<char>, names: &Names) -> (r: Note)
    requires
        names_ok(*names),
    ensures
        r@ == note_at(n@, tid@),
{
    let key = attr_or_exec(n, &names.key, "60");
    let pitch = match parse_u8_exec(&to_chars(key.as_str())) {
        Some(p) => p,
        None => 60,
    };
    let vel = attr_or_exec(n, &names.velocity, "100");
    let velocity = match parse_u8_exec(&to_chars(vel.as_str())) {
        Some(v) => v,
        None => 100,
    };
    Note {
        track_id: from_chars(tid),
        pitch_name: pitch_to_name(pitch),
        pitch,
        velocity,
        start: attr_or_exec(n, &names.time, "0.0"),
        duration: attr_or_exec(n, &names.duration, "1.0"),
    }
}

/// Appends the notes of the `MidiNoteEvent` nodes in `lo..hi`, in order,
/// on the track with id `tid`.
fn push_notes_in(ns: &Vec<XmlNode>, lo: usize, hi: usize, tid: &Vec<char>, names: &Names, out: &mut Vec<Note>)
    requires
        hi <= ns.len(),
        names_ok(*names),
    ensures
        final(out)@.map_values(|n: Note| n@) == old(out)@.map_values(|n: Note| n@) + notes_in(nodes_view(ns@), lo as int, hi as int, tid@),
{
    let ghost v = nodes_view(ns@);
    let ghost start = old(out)@.map_values(|n: Note| n@);
    let mut j = lo;
    while j < hi
        invariant
            lo <= j,
            hi <= ns.len(),
            names_ok(*names),
            v == nodes_view(ns@),
            start == old(out)@.map_values(|n: Note| n@),
            out@.map_values(|n: Note| n@) + notes_in(v, j as int, hi as int, tid@) == start + notes_in(v, lo as int, hi as int, tid@),
        decreases hi - j,
    {
        assert(v[j as int] == ns@[j as int]@);
        let ghost before = out@.map_values(|n: Note| n@);
        if ns[j].tag == names.note_event {
            let note = note_exec(&ns[j], tid, names);
            out.push(note);
            assert(out@.map_values(|n: Note| n@) =~= before.push(note_at(v[j as int], tid@)));
            assert(seq![note_at(v[j as int], tid@)] + notes_in(v, j + 1, hi as int, tid@) == notes_in(v, j as int, hi as int, tid@));
            assert(out@.map_values(|n: Note| n@) + notes_in(v, j + 1, hi as int, tid@)
                =~= before + (seq![note_at(v[j as int], tid@)] + notes_in(v, j + 1, hi as int, tid@)));
        }
        j = j + 1;
    }
}

/// The track counter never falls as more nodes are read.
proof fn lemma_tracks_upto_counter(ns: Seq<XmlNodeModel>, i: int, j: int)
    requires
        0 <= i <= j,
    ensures
        tracks_upto(ns, i).2 <= tracks_upto(ns, j).2,
        tracks_upto(ns, j).2 >= 1,
    decreases j,
{
    if j > 0 {
        lemma_tracks_upto_counter(ns, 0, j - 1);
        if i < j {
            lemma_tracks_upto_counter(ns, i, j - 1);
        }
    }
}

/// Reads the project that the nodes of a Live set describe, titled
/// `title` (see `live_set_project`).  The track count must stay below
/// `i32::MAX`, as the track numbering needs.
pub fn read_live_set(nodes: &Vec<XmlNode>, title: &str) -> (project: McfProject)
    requires
        track_count(nodes_view(nodes@)) < 2147483647,
    ensures
        project@ == live_set_project(nodes_view(nodes@), title@),
{
    let ghost v = nodes_view(nodes@);
    let names = make_names();
    let bpm = tempo_exec(nodes, &names);
    let mut tracks: Vec<Track> = Vec::new();
    let mut notes: Vec<Note> = Vec::new();
    let mut track_counter: i32 = 1;
    let mut i: usize = 0;
    let n = nodes.len();
    proof {
        lemma_tracks_upto_counter(v, 0, n as int);
    }
    while i < n
        invariant
            i <= n == nodes.len(),
            names_ok(names),
            v == nodes_view(nodes@),
            track_count(v) < 2147483647,
            tracks_upto(v, n as int).2 == track_count(v) + 1,
            track_counter >= 1,
            ({
                let (ts, nts, k) = tracks_upto(v, i as int);
                &&& tracks@.map_values(|t: Track| t@) == ts
                &&& notes@.map_values(|x: Note| x@) == nts
                &&& track_counter as nat == k
            }),
        decreases n - i,
    {
        assert(v[i as int] == nodes@[i as int]@);
        proof {
            lemma_tracks_upto_counter(v, i + 1, n as int);
        }
        let node = &nodes[i];
        let ghost prev = tracks_upto(v, i as int);
        assert(tracks_upto(v, i + 1) == (if is_track(v[i as int]) {
            (prev.0.push(track_at(v, i as int, prev.2)), prev.1 + track_notes_at(v, i as int, prev.2), prev.2 + 1)
        } else {
            prev
        }));
        let is_midi = node.tag == names.midi_track;
        if is_midi || node.tag == names.audio_track {
            let k = track_counter as usize;
            let tid = track_id_exec(k);
            let track = Track {
                id: from_chars(&tid),
                name: track_name_exec(nodes, i, k, &names),
                track_type: if is_midi { string_of("midi") } else { string_of("audio") },
                volume: mixer_value_exec(nodes, i, &names.volume, &names),
                pan: mixer_value_exec(nodes, i, &names.pan, &names),
            };
            let ghost old_tracks = tracks@.map_values(|t: Track| t@);
            let ghost old_notes = notes@.map_values(|x: Note| x@);
            tracks.push(track);
            assert(tracks@.map_values(|t: Track| t@) =~= old_tracks.push(track_at(v, i as int, k as nat)));
            if is_midi {
                let hi = subtree_end_exec(nodes, i);
                push_notes_in(nodes, i, hi, &tid, &names, &mut notes);
            } else {
                assert(notes@.map_values(|x: Note| x@) =~= old_notes + Seq::<NoteModel>::empty());
            }
            assert(notes@.map_values(|x: Note| x@) == old_notes + track_notes_at(v, i as int, k as nat));
            track_counter = track_counter + 1;
        }
        i = i + 1;
    }
    McfProject {
        title: string_of(title),
        bpm,
        scale_root: string_of("C"),
        scale_name: string_of("Major"),
        tracks,
        notes,
    }
}

/// The number of track nodes.
fn track_count_exec(nodes: &Vec<XmlNode>) -> (r: usize)
    ensures
        r as nat == track_count(nodes_view(nodes@)),
{
    let ghost v = nodes_view(nodes@);
    let midi = string_of("MidiTrack");
    let audio = string_of("AudioTrack");
    let mut count: usize = 0;
    let mut i: usize = 0;
    while i < nodes.len()
        invariant
            i <= nodes.len(),
            count <= i,
            v == nodes_view(nodes@),
            midi@ == "MidiTrack"@,
            audio@ == "AudioTrack"@,
            count + 1 == tracks_upto(v, i as int).2,
        decreases nodes.len() - i,
    {
        assert(v[i as int] == nodes@[i as int]@);
        if nodes[i].tag == midi || nodes[i].tag == audio {
            count = count + 1;
        }
        i = i + 1;
    }
    count
}

/// The project that the XML text of a Live set gives, titled `title`;
/// none where the text is no XML document or has too many tracks.
pub open spec fn text_reading(text: Seq<char>, title: Seq<char>) -> Option<ProjectModel> {
    match xml_nodes(text) {
        None => None,
        Some(ns) => if track_count(ns) < 2147483647 {
            Some(live_set_project(ns, title))
        } else {
            None
        },
    }
}

/// The project that a gzip-compressed Live set gives, titled `title`;
/// none where the data does not decompress to text or that text gives
/// none.
pub open spec fn compressed_reading(data: Seq<u8>, title: Seq<char>) -> Option<ProjectModel> {
    match gunzip_text(data) {
        None => None,
        Some(text) => text_reading(text, title),
    }
}

/// Why a Live set could not be read.
pub enum ReadError {
    /// The file is not gzip data holding text; the decoder's message.
    Decompress(String),
    /// The text is not an XML document; the parser's message.
    Xml(String),
    /// The set has `i32::MAX` tracks or more.
    TooManyTracks,
}

/// Reads the project that the XML text of a Live set describes, titled
/// `title`.
pub fn parse(text: &str, title: &str) -> (r: Result<McfProject, ReadError>)
    ensures
        match xml_nodes(text@) {
            None => r is Err && r->Err_0 is Xml,
            Some(ns) => if track_count(ns) < 2147483647 {
                r matches Ok(p) && p@ == live_set_project(ns, title@)
            } else {
                r matches Err(ReadError::TooManyTracks)
            },
        },
        r is Ok <==> text_reading(text@, title@) is Some,
        r matches Ok(p) ==> text_reading(text@, title@) == Some(p@),
{
    let nodes = match parse_xml(text) {
        Ok(v) => v,
        Err(msg) => {
            return Err(ReadError::Xml(msg));
        },
    };
    let count = track_count_exec(&nodes);
    if count >= 2147483647 {
        return Err(ReadError::TooManyTracks);
    }
    Ok(read_live_set(&nodes, title))
}

/// Reads the project that a gzip-compressed Live set describes, titled
/// `title`.
pub fn parse_compressed(data: &[u8], title: &str) -> (r: Result<McfProject, ReadError>)
    ensures
        match gunzip_text(data@) {
            None => r is Err && r->Err_0 is Decompress,
            Some(text) => match xml_nodes(text) {
                None => r is Err && r->Err_0 is Xml,
                Some(ns) => if track_count(ns) < 2147483647 {
                    r matches Ok(p) && p@ == live_set_project(ns, title@)
                } else {
                    r matches Err(ReadError::TooManyTracks)
                },
            },
        },
        r is Ok <==> compressed_reading(data@, title@) is Some,
        r matches Ok(p) ==> compressed_reading(data@, title@) == Some(p@),
{
    match gunzip_to_string(data) {
        Ok(text) => parse(text.as_str(), title),
        Err(msg) => Err(ReadError::Decompress(msg)),
    }
}

/// A compressed Live set reads as the text it decompresses to: both fail,
/// or both give the same project.
pub proof fn law_compressed_reads_as_text(data: Seq<u8>, text: Seq<char>, title: Seq<char>)
    requires
        gunzip_text(data) == Some(text),
    ensures
        compressed_reading(data, title) == text_reading(text, title),
{
}

} // verus!
