//! Edits of the XML text of a Live set template: renumbering `Id`
//! attributes, setting a track's name, the tempo and the next pointee id,
//! and placing a clip into a track's event list.
use vstd::prelude::*;
use crate::project::{McfProject, Note, NoteModel, ProjectModel};
use crate::gzip::{gunzip_text, gunzip_to_string, gzip, gzip_bytes};
use vstd::utf8::encode_utf8;
use crate::numeral::{is_digit, lemma_decimal_reads_back};
use crate::text::{
    decimal, decimal_chars, matches_at, extend_all, extend_range, find, find_from, find_from_exec, from_chars,
    lemma_find_from, lemma_find_from_append, lemma_find_from_take, lemma_find_from_unique, to_chars,
};

verus! {

/// `Id="`
pub open spec fn id_open() -> Seq<char> {
    seq!['I', 'd', '=', '"']
}

/// A single double quote.
pub open spec fn quote() -> Seq<char> {
    seq!['"']
}

/// `<EffectiveName Value="`
pub open spec fn effective_name_tag() -> Seq<char> {
    seq!['<', 'E', 'f', 'f', 'e', 'c', 't', 'i', 'v', 'e', 'N', 'a', 'm', 'e', ' ', 'V', 'a', 'l', 'u', 'e', '=', '"']
}

/// `<NextPointeeId Value="`
pub open spec fn next_pointee_tag() -> Seq<char> {
    seq!['<', 'N', 'e', 'x', 't', 'P', 'o', 'i', 'n', 't', 'e', 'e', 'I', 'd', ' ', 'V', 'a', 'l', 'u', 'e', '=', '"']
}

/// `<Tempo>`
pub open spec fn tempo_open() -> Seq<char> {
    seq!['<', 'T', 'e', 'm', 'p', 'o', '>']
}

/// `</Tempo>`
pub open spec fn tempo_close() -> Seq<char> {
    seq!['<', '/', 'T', 'e', 'm', 'p', 'o', '>']
}

/// `<Manual Value="`
pub open spec fn manual_value_open() -> Seq<char> {
    seq!['<', 'M', 'a', 'n', 'u', 'a', 'l', ' ', 'V', 'a', 'l', 'u', 'e', '=', '"']
}

/// `"/>`
pub open spec fn empty_close() -> Seq<char> {
    seq!['"', '/', '>']
}

/// `<Events>`
pub open spec fn events_open() -> Seq<char> {
    seq!['<', 'E', 'v', 'e', 'n', 't', 's', '>']
}

/// `</Events>`
pub open spec fn events_close() -> Seq<char> {
    seq!['<', '/', 'E', 'v', 'e', 'n', 't', 's', '>']
}

/// `<Events />`
pub open spec fn events_empty_spaced() -> Seq<char> {
    seq!['<', 'E', 'v', 'e', 'n', 't', 's', ' ', '/', '>']
}

/// `<Events/>`
pub open spec fn events_empty() -> Seq<char> {
    seq!['<', 'E', 'v', 'e', 'n', 't', 's', '/', '>']
}

/// `x` with `r` in place of the characters `[lo, hi)`.
pub open spec fn splice(x: Seq<char>, lo: int, hi: int, r: Seq<char>) -> Seq<char> {
    x.take(lo) + r + x.skip(hi)
}

/// The value that follows the first occurrence of `tag` (which ends with an
/// opening quote), up to the next double quote, replaced by `v`.  Where the
/// tag or the closing quote is missing, `x` is unchanged.
pub open spec fn replace_value_after(x: Seq<char>, tag: Seq<char>, v: Seq<char>) -> Seq<char> {
    match find(x, tag) {
        None => x,
        Some(st) => match find_from(x, quote(), st + tag.len()) {
            None => x,
            Some(e) => splice(x, st + tag.len(), e, v),
        },
    }
}

/// The value that follows the first occurrence of `tag`, up to the next
/// double quote; none where the tag or the closing quote is missing.
pub open spec fn value_after(x: Seq<char>, tag: Seq<char>) -> Option<Seq<char>> {
    match find(x, tag) {
        None => None,
        Some(st) => match find_from(x, quote(), st + tag.len()) {
            None => None,
            Some(e) => Some(x.subrange(st + tag.len(), e)),
        },
    }
}

/// The track name set to `name`: the value of the first
/// `<EffectiveName Value="...` replaced.
pub open spec fn replace_name_spec(x: Seq<char>, name: Seq<char>) -> Seq<char> {
    replace_value_after(x, effective_name_tag(), name)
}

/// The value of the first `<NextPointeeId Value="...` set to the decimal
/// numeral of `max_id`.
pub open spec fn next_pointee_spec(x: Seq<char>, max_id: nat) -> Seq<char> {
    replace_value_after(x, next_pointee_tag(), decimal(max_id))
}

/// `<Tempo><Manual Value="bpm"/></Tempo>`
pub open spec fn tempo_element(bpm: Seq<char>) -> Seq<char> {
    tempo_open() + manual_value_open() + bpm + empty_close() + tempo_close()
}

/// The first `<Tempo>` element, up to and with the first `</Tempo>` after
/// it, replaced by a tempo element whose manual value is `bpm`.
pub open spec fn set_tempo_spec(x: Seq<char>, bpm: Seq<char>) -> Seq<char> {
    match find(x, tempo_open()) {
        None => x,
        Some(st) => match find_from(x, tempo_close(), st) {
            None => x,
            Some(e) => splice(x, st, e + tempo_close().len(), tempo_element(bpm)),
        },
    }
}

/// `clip` placed into the track's event list: right after the first
/// `<Events>`; else in place of the first `<Events />`, or else of the first
/// `<Events/>`, as `<Events>clip</Events>`; else the track is unchanged.
pub open spec fn inject_clip_spec(t: Seq<char>, clip: Seq<char>) -> Seq<char> {
    match find(t, events_open()) {
        Some(p) => splice(t, p + 8, p + 8, clip),
        None => match find(t, events_empty_spaced()) {
            Some(p) => splice(t, p, p + 10, events_open() + clip + events_close()),
            None => match find(t, events_empty()) {
                Some(p) => splice(t, p, p + 9, events_open() + clip + events_close()),
                None => t,
            },
        },
    }
}

/// The renumbering of the text of `x` from position `pos`, which follows an
/// `Id="`, numbering from `n`.  The piece up to the next `Id="` (or to the
/// end) has its value, up to the first quote in the piece, replaced by the
/// number `n`, which is then used up; a piece without a quote is kept as it
/// is.  Returns the new text and the next unused number.
pub open spec fn rewrite_from(x: Seq<char>, pos: int, n: nat) -> (Seq<char>, nat)
    decreases x.len() - pos,
{
    if pos < 0 || pos > x.len() {
        (Seq::empty(), n)
    } else {
        let m = find_from(x, id_open(), pos);
        let end = match m {
            Some(k) => k,
            None => x.len() as int,
        };
        let (out, n2) = match find_from(x.take(end), quote(), pos) {
            Some(e) => (id_open() + decimal(n) + quote() + x.subrange(e + 1, end), n + 1),
            None => (id_open() + x.subrange(pos, end), n),
        };
        match m {
            Some(k) => {
                proof {
                    lemma_find_from(x, id_open(), pos);
                }
                let rest = rewrite_from(x, k + 4, n2);
                (out + rest.0, rest.1)
            },
            None => (out, n2),
        }
    }
}

/// Every `Id="value"` in `x` renumbered in order from `n`: the text before
/// the first `Id="` is kept, and what follows is renumbered as
/// `rewrite_from` says.  Returns the new text and the next unused number.
pub open spec fn rewrite_ids_spec(x: Seq<char>, n: nat) -> (Seq<char>, nat) {
    match find(x, id_open()) {
        None => (x, n),
        Some(i) => {
            let r = rewrite_from(x, i + 4, n);
            (x.take(i) + r.0, r.1)
        },
    }
}

/// The numbers of a project written out as text for a Live set: the
/// tempo, each track's clip length (in track order) and each note's start
/// time and duration (in note order).
pub struct SetNumbers {
    pub bpm: String,
    pub clip_lengths: Vec<String>,
    pub note_times: Vec<String>,
    pub note_durations: Vec<String>,
}

/// The abstract value of `SetNumbers`.
pub struct SetNumbersModel {
    pub bpm: Seq<char>,
    pub clip_lengths: Seq<Seq<char>>,
    pub note_times: Seq<Seq<char>>,
    pub note_durations: Seq<Seq<char>>,
}

impl View for SetNumbers {
    type V = SetNumbersModel;

    open spec fn view(&self) -> SetNumbersModel {
        SetNumbersModel {
            bpm: self.bpm@,
            clip_lengths: self.clip_lengths@.map_values(|s: String| s@),
            note_times: self.note_times@.map_values(|s: String| s@),
            note_durations: self.note_durations@.map_values(|s: String| s@),
        }
    }
}

/// Why a Live set could not be assembled from a template.
pub enum SetError {
    /// The template holds no `<MidiTrack`.
    NoMidiTrack,
    /// The template's first `<MidiTrack` is not closed by a `</MidiTrack>`.
    NoClosingMidiTrack,
    /// The ids to hand out pass `usize::MAX`.
    IdOverflow,
}

/// The event of one note: its start time, duration and velocity.
pub open spec fn note_event(time: Seq<char>, duration: Seq<char>, velocity: u8) -> Seq<char> {
    "<MidiNoteEvent Time=\""@ + time + "\" Duration=\""@ + duration + "\" Velocity=\""@
        + decimal(velocity as nat) + "\"/>"@
}

/// The indices, below `j` and in order, of the notes played on the track
/// with id `tid`.
pub open spec fn track_note_indices(notes: Seq<NoteModel>, tid: Seq<char>, j: int) -> Seq<int>
    decreases j,
{
    if j <= 0 {
        Seq::empty()
    } else if notes[j - 1].track_id == tid {
        track_note_indices(notes, tid, j - 1).push(j - 1)
    } else {
        track_note_indices(notes, tid, j - 1)
    }
}

/// The events, in order, of the notes at `idx` whose pitch is `p`.
pub open spec fn pitch_events(nums: SetNumbersModel, notes: Seq<NoteModel>, idx: Seq<int>, p: u8) -> Seq<char>
    decreases idx.len(),
{
    if idx.len() == 0 {
        Seq::empty()
    } else {
        let j = idx.last();
        let prev = pitch_events(nums, notes, idx.drop_last(), p);
        if notes[j].pitch == p {
            prev + note_event(nums.note_times[j], nums.note_durations[j], notes[j].velocity)
        } else {
            prev
        }
    }
}

/// Some note at `idx` has pitch `p`.
pub open spec fn has_pitch(notes: Seq<NoteModel>, idx: Seq<int>, p: u8) -> bool {
    exists|k: int| 0 <= k < idx.len() && notes[idx[k]].pitch == p
}

/// The key track of pitch `p` with id `id`.
pub open spec fn key_track(id: nat, p: u8, events: Seq<char>) -> Seq<char> {
    "<KeyTrack Id=\""@ + decimal(id) + "\">"@ + "<MidiKey Value=\""@ + decimal(p as nat) + "\"/>"@
        + "<Notes>"@ + events + "</Notes>"@ + "</KeyTrack>"@
}

/// The key tracks of the pitches below `q` that some note at `idx` has, in
/// ascending pitch order, numbered from `c`.  Returns the text and the
/// next unused id.
pub open spec fn key_tracks(nums: SetNumbersModel, notes: Seq<NoteModel>, idx: Seq<int>, q: nat, c: nat) -> (Seq<char>, nat)
    decreases q,
{
    if q == 0 {
        (Seq::empty(), c)
    } else {
        let (prev, c1) = key_tracks(nums, notes, idx, (q - 1) as nat, c);
        let p = (q - 1) as u8;
        if has_pitch(notes, idx, p) {
            (prev + key_track(c1, p, pitch_events(nums, notes, idx, p)), c1 + 1)
        } else {
            (prev, c1)
        }
    }
}

/// A clip with id `id`, looping over `length` beats, holding the key
/// tracks `kt`.
pub open spec fn clip_text(id: nat, length: Seq<char>, kt: Seq<char>) -> Seq<char> {
    "<MidiClip Id=\""@ + decimal(id) + "\">"@
        + "<CurrentStart Value=\"0\"/><CurrentEnd Value=\""@ + length
        + "\"/><Loop><LoopStart Value=\"0\"/><LoopEnd Value=\""@ + length
        + "\"/><StartRelative Value=\"0\"/><LoopOn Value=\"true\"/><HiddenLoopStart Value=\"0\"/><HiddenLoopEnd Value=\""@
        + length + "\"/></Loop>"@
        + "<Name><EffectiveName Value=\"MCF Clip\"/></Name>"@
        + "<Notes><KeyTracks>"@ + kt + "</KeyTracks></Notes>"@ + "</MidiClip>"@
}

/// The XML of track `k` made from the track template `tt`, handing out
/// ids from `c`: the template's ids renumbered, its name set, and, when
/// the track has notes, a clip holding them.  The clip takes the id after
/// the renumbered ones, and its key tracks the ids after that.  Returns
/// the text and the next unused id.
pub open spec fn track_text(tt: Seq<char>, proj: ProjectModel, nums: SetNumbersModel, k: int, c: nat) -> (Seq<char>, nat) {
    let track = proj.tracks[k];
    let (x1, c1) = rewrite_ids_spec(tt, c);
    let x2 = replace_name_spec(x1, track.name);
    let idx = track_note_indices(proj.notes, track.id, proj.notes.len() as int);
    let (kt, c2) = key_tracks(nums, proj.notes, idx, 256, c1 + 1);
    let clip = clip_text(c1, nums.clip_lengths[k], kt);
    (if idx.len() > 0 { inject_clip_spec(x2, clip) } else { x2 }, c2)
}

/// The XML of the first `k` tracks, in order, handing out ids from `c`.
pub open spec fn tracks_text(tt: Seq<char>, proj: ProjectModel, nums: SetNumbersModel, k: nat, c: nat) -> (Seq<char>, nat)
    decreases k,
{
    if k == 0 {
        (Seq::empty(), c)
    } else {
        let (prev, c1) = tracks_text(tt, proj, nums, (k - 1) as nat, c);
        let (t, c2) = track_text(tt, proj, nums, k - 1, c1);
        (prev + t, c2)
    }
}

/// The first id handed out in a Live set.
pub open spec fn first_id() -> nat {
    100000
}

/// The Live set text made from the template `x` and a project.  The
/// template is cut around its first MIDI track (from `<MidiTrack` to the
/// first `</MidiTrack>` after it); the text before gets the project's
/// tempo and, as next pointee id, one more than the last id handed out;
/// the track is repeated for each track of the project; the text after is
/// kept.
pub open spec fn live_set_text(x: Seq<char>, proj: ProjectModel, nums: SetNumbersModel) -> Result<Seq<char>, SetError> {
    match find(x, "<MidiTrack"@) {
        None => Err(SetError::NoMidiTrack),
        Some(ts) => match find_from(x, "</MidiTrack>"@, ts) {
            None => Err(SetError::NoClosingMidiTrack),
            Some(te) => {
                let end = te + 12;
                let (body, c) = tracks_text(x.subrange(ts, end), proj, nums, proj.tracks.len(), first_id());
                if c + 1 > usize::MAX {
                    Err(SetError::IdOverflow)
                } else {
                    let prefix = next_pointee_spec(set_tempo_spec(x.take(ts), nums.bpm), c + 1);
                    Ok(prefix + body + x.skip(end))
                }
            },
        },
    }
}

/// The events of the notes at the indices `js`, in order.
pub open spec fn events_of(nums: SetNumbersModel, notes: Seq<NoteModel>, js: Seq<int>) -> Seq<char>
    decreases js.len(),
{
    if js.len() == 0 {
        Seq::empty()
    } else {
        let j = js.last();
        events_of(nums, notes, js.drop_last()) + note_event(nums.note_times[j], nums.note_durations[j], notes[j].velocity)
    }
}

/// The indices among `idx` of the notes with pitch `p`, in order.
pub open spec fn pitch_group(notes: Seq<NoteModel>, idx: Seq<int>, p: u8) -> Seq<int> {
    idx.filter(|j: int| notes[j].pitch == p)
}

/// The number of notes at `idx` whose pitch is below `q`, counted pitch by
/// pitch.
pub open spec fn group_sizes(notes: Seq<NoteModel>, idx: Seq<int>, q: nat) -> nat
    decreases q,
{
    if q == 0 {
        0
    } else {
        group_sizes(notes, idx, (q - 1) as nat) + pitch_group(notes, idx, (q - 1) as u8).len()
    }
}

/// The events of a pitch are those of its group.
proof fn lemma_pitch_events_group(nums: SetNumbersModel, notes: Seq<NoteModel>, idx: Seq<int>, p: u8)
    ensures
        pitch_events(nums, notes, idx, p) == events_of(nums, notes, pitch_group(notes, idx, p)),
    decreases idx.len(),
{
    reveal_with_fuel(Seq::<_>::filter, 1);
    if idx.len() > 0 {
        lemma_pitch_events_group(nums, notes, idx.drop_last(), p);
        let f = |j: int| notes[j].pitch == p;
        assert(idx.filter(f) == if f(idx.last()) { idx.drop_last().filter(f).push(idx.last()) } else { idx.drop_last().filter(f) });
        if f(idx.last()) {
            assert(idx.drop_last().filter(f).push(idx.last()).drop_last() =~= idx.drop_last().filter(f));
        }
    }
}

/// Dropping the last index takes one note from the group of its pitch and
/// none from the others.
proof fn lemma_group_sizes_step(notes: Seq<NoteModel>, idx: Seq<int>, q: nat)
    requires
        idx.len() > 0,
        q <= 256,
    ensures
        group_sizes(notes, idx, q) == group_sizes(notes, idx.drop_last(), q)
            + (if (notes[idx.last()].pitch as nat) < q { 1nat } else { 0nat }),
    decreases q,
{
    reveal_with_fuel(Seq::<_>::filter, 1);
    if q > 0 {
        lemma_group_sizes_step(notes, idx, (q - 1) as nat);
        let p = (q - 1) as u8;
        assert(p as nat == q - 1);
        let f = |j: int| notes[j].pitch == p;
        assert(idx.filter(f) == if f(idx.last()) { idx.drop_last().filter(f).push(idx.last()) } else { idx.drop_last().filter(f) });
    }
}

/// The clip of a track holds each of the track's notes exactly once: the
/// events of pitch `p` are those of the notes of pitch `p`, in order, and
/// these groups, over all pitches, hold as many notes as the track has.
pub proof fn law_each_note_once(nums: SetNumbersModel, notes: Seq<NoteModel>, idx: Seq<int>)
    ensures
        forall|p: u8| #[trigger] pitch_events(nums, notes, idx, p) == events_of(nums, notes, pitch_group(notes, idx, p)),
        group_sizes(notes, idx, 256) == idx.len(),
    decreases idx.len(),
{
    assert forall|p: u8| #[trigger] pitch_events(nums, notes, idx, p) == events_of(nums, notes, pitch_group(notes, idx, p)) by {
        lemma_pitch_events_group(nums, notes, idx, p);
    }
    if idx.len() == 0 {
        lemma_group_sizes_empty(notes, idx, 256);
    } else {
        law_each_note_once(nums, notes, idx.drop_last());
        lemma_group_sizes_step(notes, idx, 256);
    }
}

/// No indices, no notes in any group.
proof fn lemma_group_sizes_empty(notes: Seq<NoteModel>, idx: Seq<int>, q: nat)
    requires
        idx.len() == 0,
    ensures
        group_sizes(notes, idx, q) == 0,
    decreases q,
{
    reveal_with_fuel(Seq::<_>::filter, 1);
    if q > 0 {
        lemma_group_sizes_empty(notes, idx, (q - 1) as nat);
    }
}

/// Renumbering never hands out fewer numbers than it started from.
proof fn lemma_rewrite_from_counter(x: Seq<char>, pos: int, n: nat)
    ensures
        rewrite_from(x, pos, n).1 >= n,
    decreases x.len() - pos,
{
    if 0 <= pos <= x.len() {
        lemma_find_from(x, id_open(), pos);
        let m = find_from(x, id_open(), pos);
        let end = match m {
            Some(k) => k,
            None => x.len() as int,
        };
        let n2 = match find_from(x.take(end), quote(), pos) {
            Some(e) => n + 1,
            None => n,
        };
        if let Some(k) = m {
            lemma_rewrite_from_counter(x, k + 4, n2);
        }
    }
}

/// The numbers renumbering hands out do not depend on where it starts.
proof fn lemma_rewrite_from_shift(x: Seq<char>, pos: int, n: nat)
    ensures
        rewrite_from(x, pos, n).1 == n + rewrite_from(x, pos, 0).1,
    decreases x.len() - pos,
{
    if 0 <= pos <= x.len() {
        lemma_find_from(x, id_open(), pos);
        let m = find_from(x, id_open(), pos);
        let end = match m {
            Some(k) => k,
            None => x.len() as int,
        };
        let q = find_from(x.take(end), quote(), pos);
        if let Some(k) = m {
            let d: nat = if q is Some { 1 } else { 0 };
            lemma_rewrite_from_shift(x, k + 4, n + d);
            lemma_rewrite_from_shift(x, k + 4, d);
        }
    }
}

/// Renumbering hands out at most one number per character left, and one.
proof fn lemma_rewrite_from_bound(x: Seq<char>, pos: int, n: nat)
    requires
        0 <= pos <= x.len(),
    ensures
        rewrite_from(x, pos, n).1 <= n + x.len() - pos + 1,
    decreases x.len() - pos,
{
    lemma_find_from(x, id_open(), pos);
    let m = find_from(x, id_open(), pos);
    let end = match m {
        Some(k) => k,
        None => x.len() as int,
    };
    let q = find_from(x.take(end), quote(), pos);
    if let Some(k) = m {
        let n2: nat = if q is Some { n + 1 } else { n };
        lemma_rewrite_from_bound(x, k + 4, n2);
    }
}

/// Renumbering a text hands out a number of ids that does not depend on
/// the first one, and no more than the text's length.
pub proof fn law_rewrite_ids_count(x: Seq<char>, n: nat)
    ensures
        rewrite_ids_spec(x, n).1 == n + rewrite_ids_spec(x, 0).1,
        rewrite_ids_spec(x, 0).1 <= x.len(),
{
    lemma_find_from(x, id_open(), 0);
    if let Some(i) = find(x, id_open()) {
        lemma_rewrite_from_shift(x, i + 4, n);
        lemma_rewrite_from_bound(x, i + 4, 0);
    }
}

/// Renumbering `u + v` past `u` is renumbering `v`.
proof fn lemma_rewrite_from_append(u: Seq<char>, v: Seq<char>, pos: int, n: nat)
    requires
        0 <= pos,
    ensures
        rewrite_from(u + v, u.len() + pos, n) == rewrite_from(v, pos, n),
    decreases v.len() - pos,
{
    let x = u + v;
    let l = u.len() as int;
    if pos <= v.len() {
        lemma_find_from_append(u, v, id_open(), pos);
        lemma_find_from(v, id_open(), pos);
        let m = find_from(v, id_open(), pos);
        let end = match m {
            Some(k) => k,
            None => v.len() as int,
        };
        assert(x.take(l + end) =~= u + v.take(end));
        lemma_find_from_append(u, v.take(end), quote(), pos);
        lemma_find_from(v.take(end), quote(), pos);
        if let Some(e) = find_from(v.take(end), quote(), pos) {
            assert(x.subrange(l + e + 1, l + end) =~= v.subrange(e + 1, end));
        } else {
            assert(x.subrange(l + pos, l + end) =~= v.subrange(pos, end));
        }
        if let Some(k) = m {
            let n2: nat = if find_from(v.take(end), quote(), pos) is Some { n + 1 } else { n };
            lemma_rewrite_from_append(u, v, k + 4, n2);
        }
    }
}

/// A renumbered piece, `Id="`, digits `d`, then the text of `x` from `xs`
/// to `end`, in which `x` has no `Id="`, holds no `Id="` past its opening,
/// also where one would run on into what follows: either nothing, or the
/// next piece's `Id="`, which also follows `end` in `x`.
proof fn lemma_piece_no_id(x: Seq<char>, xs: int, end: int, d: Seq<char>, rest: Seq<char>)
    requires
        0 <= xs <= end <= x.len(),
        forall|i: int| 0 <= i < d.len() ==> '0' <= #[trigger] d[i] <= '9',
        forall|j: int| xs <= j < end ==> !matches_at(x, id_open(), j),
        rest.len() == 0 || (
            rest.len() >= 4 && rest.take(4) == id_open() && end + 4 <= x.len()
                && x.subrange(end, end + 4) == id_open()),
    ensures
        forall|j: int| 4 <= j < 4 + d.len() + end - xs
            ==> !matches_at(id_open() + d + x.subrange(xs, end) + rest, id_open(), j),
{
    let o = id_open() + d + x.subrange(xs, end) + rest;
    let start: int = 4 + d.len() as int;
    let lo = start + end - xs;
    assert forall|j: int| 4 <= j < lo implies !matches_at(o, id_open(), j) by {
        if j < start {
            assert(o[j] == d[j - 4]);
            if matches_at(o, id_open(), j) {
                assert(o.subrange(j, j + 4)[0] == o[j]);
            }
        } else {
            let xj = j - start + xs;
            assert(!matches_at(x, id_open(), xj));
            if matches_at(o, id_open(), j) {
                assert forall|k: int| 0 <= k < 4 implies #[trigger] o.subrange(j, j + 4)[k] == x[xj + k] by {
                    assert(o.subrange(j, j + 4)[k] == o[j + k]);
                    if j + k < lo {
                        assert(o[j + k] == x[xj + k]);
                    } else {
                        assert(o[j + k] == rest[j + k - lo]);
                        assert(rest[j + k - lo] == rest.take(4)[j + k - lo]);
                        assert(x[xj + k] == x.subrange(end, end + 4)[j + k - lo]);
                    }
                }
                assert(o.subrange(j, j + 4) =~= x.subrange(xj, xj + 4));
            }
        }
    }
}

/// In a renumbered piece the first quote past `Id="` closes the number, if
/// there is a number; without one, the piece holds no quote there.
proof fn lemma_piece_quote(x: Seq<char>, xs: int, end: int, d: Seq<char>, numbered: bool)
    requires
        0 <= xs <= end <= x.len(),
        forall|i: int| 0 <= i < d.len() ==> '0' <= #[trigger] d[i] <= '9',
        numbered ==> xs < end && x[xs] == '"',
        !numbered ==> d.len() == 0 && forall|j: int| xs <= j < end ==> x[j] != '"',
    ensures
        find_from(id_open() + d + x.subrange(xs, end), quote(), 4)
            == (if numbered { Some(4 + d.len() as int) } else { None::<int> }),
{
    let out = id_open() + d + x.subrange(xs, end);
    let start: int = 4 + d.len() as int;
    lemma_find_from(out, quote(), 4);
    assert forall|j: int| 4 <= j < out.len() && (numbered ==> j < start)
        implies !matches_at(out, quote(), j) by {
        if matches_at(out, quote(), j) {
            assert(out.subrange(j, j + 1)[0] == out[j]);
            if j < start {
                assert(out[j] == d[j - 4]);
            } else {
                assert(out[j] == x[j - start + xs]);
            }
        }
    }
    if numbered {
        assert(out.subrange(start, start + 1) =~= quote());
        lemma_find_from_unique(out, quote(), 4, start);
    } else {
        if let Some(j) = find_from(out, quote(), 4) {
        }
    }
}

/// What renumbering writes opens with `Id="`, and renumbering it again
/// from the same number, past that opening, gives it back with the same
/// next number: the numbers written are digits, which hold neither a
/// quote nor the start of an `Id="`, and every piece keeps its text after
/// the number.
#[verifier::spinoff_prover]
proof fn lemma_rewrite_from_again(x: Seq<char>, pos: int, n: nat)
    requires
        0 <= pos <= x.len(),
    ensures
        rewrite_from(x, pos, n).0.len() >= 4,
        rewrite_from(x, pos, n).0.take(4) == id_open(),
        rewrite_from(rewrite_from(x, pos, n).0, 4, n) == rewrite_from(x, pos, n),
    decreases x.len() - pos,
{
    lemma_find_from(x, id_open(), pos);
    let m = find_from(x, id_open(), pos);
    let end = match m {
        Some(k) => k,
        None => x.len() as int,
    };
    lemma_find_from(x.take(end), quote(), pos);
    let q = find_from(x.take(end), quote(), pos);
    let numbered = q is Some;
    let d = if numbered { decimal(n) } else { Seq::<char>::empty() };
    let xs = match q {
        Some(e) => e,
        None => pos,
    };
    let n1: nat = if numbered { n + 1 } else { n };
    let out = id_open() + d + x.subrange(xs, end);
    let r = rewrite_from(x, pos, n);
    let rest = match m {
        Some(k) => rewrite_from(x, k + 4, n1),
        None => (Seq::<char>::empty(), n1),
    };
    if let Some(k) = m {
        lemma_rewrite_from_again(x, k + 4, n1);
        assert(x.subrange(k, k + 4) == id_open());
    }
    if let Some(e) = q {
        assert(x.take(end).subrange(e, e + 1) == quote());
        assert(x[e] == x.take(end).subrange(e, e + 1)[0]);
        assert(quote() + x.subrange(e + 1, end) =~= x.subrange(e, end));
        assert(out =~= id_open() + decimal(n) + quote() + x.subrange(e + 1, end));
    } else {
        assert(out =~= id_open() + x.subrange(pos, end));
        assert forall|j: int| pos <= j < end implies x[j] != '"' by {
            assert(!matches_at(x.take(end), quote(), j));
            if x[j] == '"' {
                assert(x.take(end).subrange(j, j + 1) =~= quote());
            }
        }
    }
    assert(r == (out + rest.0, rest.1));
    let o = r.0;
    assert(o.take(4) =~= id_open());
    lemma_decimal_reads_back(n);
    assert forall|i: int| 0 <= i < d.len() implies '0' <= #[trigger] d[i] <= '9' by {
        assert(is_digit(decimal(n)[i]));
    }
    lemma_piece_no_id(x, xs, end, d, rest.0);
    lemma_piece_quote(x, xs, end, d, numbered);
    let lo = out.len() as int;
    assert(o.take(lo) =~= out);
    lemma_find_from(o, id_open(), 4);
    match m {
        Some(k) => {
            assert(o.subrange(lo, lo + 4) =~= rest.0.take(4));
            lemma_find_from_unique(o, id_open(), 4, lo);
            lemma_rewrite_from_append(out, rest.0, 4, n1);
        },
        None => {
            if let Some(j) = find_from(o, id_open(), 4) {
                assert(j < lo);
            }
        },
    }
    if let Some(e) = q {
        assert(out.subrange(4 + d.len() as int + 1, lo) =~= x.subrange(e + 1, end));
    } else {
        assert(out.subrange(4, lo) =~= x.subrange(pos, end));
    }
}

/// Renumbering a renumbered text again from the same number changes
/// nothing and hands out the same numbers.
pub proof fn law_rewrite_ids_again(x: Seq<char>, n: nat)
    ensures
        rewrite_ids_spec(rewrite_ids_spec(x, n).0, n) == rewrite_ids_spec(x, n),
{
    lemma_find_from(x, id_open(), 0);
    if let Some(i) = find(x, id_open()) {
        let r = rewrite_from(x, i + 4, n);
        lemma_rewrite_from_again(x, i + 4, n);
        let y = x.take(i) + r.0;
        assert(y.take(i + 4) =~= x.take(i + 4));
        assert forall|j: int| 0 <= j < i implies !matches_at(y, id_open(), j) by {
            assert(!matches_at(x, id_open(), j));
            assert(y.subrange(j, j + 4) =~= x.subrange(j, j + 4));
        }
        assert(y.subrange(i, i + 4) =~= x.subrange(i, i + 4));
        lemma_find_from_unique(y, id_open(), 0, i);
        lemma_rewrite_from_append(x.take(i), r.0, 4, n);
        assert(y.take(i) =~= x.take(i));
    }
}

/// Key tracks hand out ids upward from the first.
proof fn lemma_key_tracks_counter(nums: SetNumbersModel, notes: Seq<NoteModel>, idx: Seq<int>, q: nat, c: nat)
    ensures
        key_tracks(nums, notes, idx, q, c).1 >= c,
    decreases q,
{
    if q > 0 {
        lemma_key_tracks_counter(nums, notes, idx, (q - 1) as nat, c);
    }
}

/// A track hands out at least one id, for its clip.
proof fn lemma_track_text_counter(tt: Seq<char>, proj: ProjectModel, nums: SetNumbersModel, k: int, c: nat)
    ensures
        track_text(tt, proj, nums, k, c).1 > c,
{
    law_rewrite_ids_count(tt, c);
    let c1 = rewrite_ids_spec(tt, c).1;
    let idx = track_note_indices(proj.notes, proj.tracks[k].id, proj.notes.len() as int);
    lemma_key_tracks_counter(nums, proj.notes, idx, 256, c1 + 1);
}

/// Later tracks hand out later ids.
proof fn lemma_tracks_text_counter(tt: Seq<char>, proj: ProjectModel, nums: SetNumbersModel, i: nat, j: nat, c: nat)
    requires
        i <= j,
    ensures
        tracks_text(tt, proj, nums, j, c).1 >= tracks_text(tt, proj, nums, i, c).1,
        tracks_text(tt, proj, nums, j, c).1 >= c,
    decreases j,
{
    if j > 0 {
        lemma_tracks_text_counter(tt, proj, nums, 0, (j - 1) as nat, c);
        if i < j {
            lemma_tracks_text_counter(tt, proj, nums, i, (j - 1) as nat, c);
        }
        let c1 = tracks_text(tt, proj, nums, (j - 1) as nat, c).1;
        lemma_track_text_counter(tt, proj, nums, j - 1, c1);
    }
}

/// Replacing the value after `tag` twice leaves what the second
/// replacement wrote, when the first value holds no double quote.
proof fn lemma_replace_value_twice(x: Seq<char>, tag: Seq<char>, a: Seq<char>, b: Seq<char>)
    requires
        !a.contains('"'),
    ensures
        replace_value_after(replace_value_after(x, tag, a), tag, b) == replace_value_after(x, tag, b),
{
    lemma_find_from(x, tag, 0);
    if let Some(st) = find(x, tag) {
        let l = tag.len() as int;
        lemma_find_from(x, quote(), st + l);
        if let Some(e) = find_from(x, quote(), st + l) {
            let y = replace_value_after(x, tag, a);
            assert(y == x.take(st + l) + a + x.skip(e));
            assert(y.subrange(st, st + l) =~= x.subrange(st, st + l));
            assert forall|j: int| 0 <= j < st implies !matches_at(y, tag, j) by {
                assert(!matches_at(x, tag, j));
                assert(y.subrange(j, j + l) =~= x.subrange(j, j + l));
            }
            lemma_find_from_unique(y, tag, 0, st);
            let m = st + l + a.len();
            assert(x.subrange(e, e + 1) =~= quote());
            assert(y.subrange(m, m + 1) =~= x.subrange(e, e + 1));
            assert forall|j: int| st + l <= j < m implies !matches_at(y, quote(), j) by {
                assert(y[j] == a[j - st - l]);
                if matches_at(y, quote(), j) {
                    assert(y.subrange(j, j + 1)[0] == '"');
                    assert(a.contains('"'));
                }
            }
            lemma_find_from_unique(y, quote(), st + l, m);
            assert(replace_value_after(y, tag, b) =~= replace_value_after(x, tag, b));
        }
    }
}

/// Naming a track twice leaves the second name, when the first name holds
/// no double quote.
pub proof fn law_replace_name_twice(x: Seq<char>, a: Seq<char>, b: Seq<char>)
    requires
        !a.contains('"'),
    ensures
        replace_name_spec(replace_name_spec(x, a), b) == replace_name_spec(x, b),
{
    lemma_replace_value_twice(x, effective_name_tag(), a, b);
}

/// Naming a track and then giving it back its old name restores the
/// text, when the new name holds no double quote.
pub proof fn law_replace_name_restore(x: Seq<char>, a: Seq<char>, v: Seq<char>)
    requires
        value_after(x, effective_name_tag()) == Some(v),
        !a.contains('"'),
    ensures
        replace_name_spec(replace_name_spec(x, a), v) == x,
{
    lemma_replace_value_twice(x, effective_name_tag(), a, v);
    lemma_find_from(x, effective_name_tag(), 0);
    let st = find(x, effective_name_tag())->0;
    assert(effective_name_tag().len() == 22);
    lemma_find_from(x, quote(), st + 22);
    let e = find_from(x, quote(), st + 22)->0;
    assert(splice(x, st + 22, e, x.subrange(st + 22, e)) =~= x);
}

/// A decimal numeral holds only digits.
proof fn lemma_decimal_digits(n: nat)
    ensures
        forall|i: int| 0 <= i < decimal(n).len() ==> #[trigger] decimal(n)[i] != '"',
    decreases n,
{
    if n >= 10 {
        lemma_decimal_digits(n / 10);
        let d = decimal(n / 10);
        assert forall|i: int| 0 <= i < decimal(n).len() implies #[trigger] decimal(n)[i] != '"' by {
            if i < d.len() {
                assert(decimal(n)[i] == d[i]);
            }
        }
    }
}

/// Setting the next pointee id twice leaves the second value.
pub proof fn law_next_pointee_twice(x: Seq<char>, m: nat, k: nat)
    ensures
        next_pointee_spec(next_pointee_spec(x, m), k) == next_pointee_spec(x, k),
{
    lemma_decimal_digits(m);
    assert(!decimal(m).contains('"')) by {
        if decimal(m).contains('"') {
            let i = choose|i: int| 0 <= i < decimal(m).len() && decimal(m)[i] == '"';
            assert(decimal(m)[i] != '"');
        }
    }
    lemma_replace_value_twice(x, next_pointee_tag(), decimal(m), decimal(k));
}

/// The shape of a tempo element: it opens with `<Tempo>` and ends with
/// `</Tempo>`.
proof fn lemma_tempo_element_shape(a: Seq<char>)
    ensures
        tempo_element(a).len() == a.len() + 33,
        tempo_element(a).subrange(0, 7) == tempo_open(),
        tempo_element(a).subrange(a.len() + 25int, a.len() + 33int) == tempo_close(),
{
    let p1 = tempo_open() + manual_value_open();
    let p2 = empty_close() + tempo_close();
    let r = tempo_element(a);
    assert(r =~= p1 + a + p2);
    assert(p1 =~= seq!['<', 'T', 'e', 'm', 'p', 'o', '>', '<', 'M', 'a', 'n', 'u', 'a', 'l', ' ', 'V', 'a', 'l', 'u', 'e', '=', '"']);
    assert(p2 =~= seq!['"', '/', '>', '<', '/', 'T', 'e', 'm', 'p', 'o', '>']);
    assert(r.subrange(0, 7) =~= tempo_open());
    assert(r.subrange(a.len() + 25int, a.len() + 33int) =~= tempo_close());
}

/// The first `<Tempo>` of a text whose first `<Tempo>` element was
/// replaced stays where it was.
proof fn lemma_tempo_open_kept(x: Seq<char>, y: Seq<char>, st: int)
    requires
        find(x, tempo_open()) == Some(st),
        st + 7 <= y.len(),
        y.take(st + 7) == x.take(st + 7),
    ensures
        find(y, tempo_open()) == Some(st),
{
    lemma_find_from(x, tempo_open(), 0);
    assert forall|j: int| 0 <= j < st implies !matches_at(y, tempo_open(), j) by {
        assert(!matches_at(x, tempo_open(), j));
        assert(y.subrange(j, j + 7) =~= y.take(st + 7).subrange(j, j + 7));
        assert(x.subrange(j, j + 7) =~= x.take(st + 7).subrange(j, j + 7));
    }
    assert(y.subrange(st, st + 7) =~= y.take(st + 7).subrange(st, st + 7));
    assert(x.subrange(st, st + 7) =~= x.take(st + 7).subrange(st, st + 7));
    lemma_find_from_unique(y, tempo_open(), 0, st);
}

/// Setting the tempo twice leaves the second tempo text, unless the first
/// tempo element closes early: when the text has a tempo element, the
/// first `</Tempo>` of the element written for `a` must be its own end.
#[verifier::spinoff_prover]
pub proof fn law_set_tempo_twice(x: Seq<char>, a: Seq<char>, b: Seq<char>)
    requires
        (find(x, tempo_open()) matches Some(st) && find_from(x, tempo_close(), st) is Some)
            ==> find(tempo_element(a), tempo_close()) == Some(a.len() + 25int),
    ensures
        set_tempo_spec(set_tempo_spec(x, a), b) == set_tempo_spec(x, b),
{
    lemma_find_from(x, tempo_open(), 0);
    if let Some(st) = find(x, tempo_open()) {
        lemma_find_from(x, tempo_close(), st);
        if let Some(e) = find_from(x, tempo_close(), st) {
            let r = tempo_element(a);
            lemma_tempo_element_shape(a);
            lemma_find_from(r, tempo_close(), 0);
            let y = set_tempo_spec(x, a);
            assert(y == x.take(st) + r + x.skip(e + 8));
            assert(y.take(st + 7) =~= x.take(st + 7));
            lemma_tempo_open_kept(x, y, st);
            let c = st + r.len() - 8;
            assert(y.subrange(c, c + 8) =~= r.subrange(a.len() + 25int, a.len() + 33int));
            assert forall|j: int| st <= j < c implies !matches_at(y, tempo_close(), j) by {
                assert(y.subrange(j, j + 8) =~= r.subrange(j - st, j - st + 8));
                assert(!matches_at(r, tempo_close(), j - st));
            }
            lemma_find_from_unique(y, tempo_close(), st, c);
            assert(set_tempo_spec(y, b) =~= set_tempo_spec(x, b));
        }
    }
}

/// `<Events>` occurs first at `p` when it occurs there and not wholly
/// before: an occurrence that would overlap `p` from the left is ruled
/// out, since `<` starts `<Events>` and appears nowhere else in it.
proof fn lemma_events_open_first(y: Seq<char>, p: int)
    requires
        matches_at(y, events_open(), p),
        forall|j: int| 0 <= j && j + 8 <= p ==> !matches_at(y, events_open(), j),
    ensures
        find(y, events_open()) == Some(p),
{
    assert forall|j: int| 0 <= j < p implies !matches_at(y, events_open(), j) by {
        if j + 8 > p && matches_at(y, events_open(), j) {
            assert(y.subrange(p, p + 8)[0] == '<');
            assert(y.subrange(j, j + 8)[p - j] == y[p]);
            assert(events_open()[p - j] != '<');
        }
    }
    lemma_find_from_unique(y, events_open(), 0, p);
}

/// An empty event list replaced by `<Events>clip</Events>` has its first
/// `<Events>` where the empty list was, when the track had no `<Events>`.
proof fn lemma_filled_events(t: Seq<char>, p: int, w: int, a: Seq<char>)
    requires
        find(t, events_open()) is None,
        0 <= p,
        p + w <= t.len(),
        0 <= w,
    ensures
        find(splice(t, p, p + w, events_open() + a + events_close()), events_open()) == Some(p),
{
    let y = splice(t, p, p + w, events_open() + a + events_close());
    lemma_find_from(t, events_open(), 0);
    assert(y.subrange(p, p + 8) =~= events_open());
    assert forall|j: int| 0 <= j && j + 8 <= p implies !matches_at(y, events_open(), j) by {
        assert(!matches_at(t, events_open(), j));
        assert(y.subrange(j, j + 8) =~= t.subrange(j, j + 8));
    }
    lemma_events_open_first(y, p);
}

/// Placing clip `a` and then clip `b` into a track is placing `b`
/// followed by `a`: a later clip lands right after `<Events>`, before the
/// earlier ones.
pub proof fn law_inject_clip_twice(t: Seq<char>, a: Seq<char>, b: Seq<char>)
    ensures
        inject_clip_spec(inject_clip_spec(t, a), b) == inject_clip_spec(t, b + a),
{
    lemma_find_from(t, events_open(), 0);
    let y = inject_clip_spec(t, a);
    match find(t, events_open()) {
        Some(p) => {
            assert(y.subrange(p, p + 8) =~= t.subrange(p, p + 8));
            assert forall|j: int| 0 <= j && j + 8 <= p implies !matches_at(y, events_open(), j) by {
                assert(!matches_at(t, events_open(), j));
                assert(y.subrange(j, j + 8) =~= t.subrange(j, j + 8));
            }
            lemma_events_open_first(y, p);
            assert(inject_clip_spec(y, b) =~= inject_clip_spec(t, b + a));
        },
        None => {
            lemma_find_from(t, events_empty_spaced(), 0);
            match find(t, events_empty_spaced()) {
                Some(p) => {
                    lemma_filled_events(t, p, 10, a);
                    assert(inject_clip_spec(y, b) =~= inject_clip_spec(t, b + a));
                },
                None => {
                    lemma_find_from(t, events_empty(), 0);
                    match find(t, events_empty()) {
                        Some(p) => {
                            lemma_filled_events(t, p, 9, a);
                            assert(inject_clip_spec(y, b) =~= inject_clip_spec(t, b + a));
                        },
                        None => {},
                    }
                },
            }
        },
    }
}

/// In a tempo element whose tempo text holds no `<`, no `</` starts
/// before its closing `</Tempo>`.
proof fn lemma_tempo_no_early_close(a: Seq<char>)
    requires
        !a.contains('<'),
    ensures
        forall|k: int|
            0 <= k < a.len() + 25 ==> !(#[trigger] tempo_element(a)[k] == '<' && tempo_element(a)[k + 1] == '/'),
{
    let p1 = tempo_open() + manual_value_open();
    let p2 = empty_close() + tempo_close();
    let r = tempo_element(a);
    assert(r =~= p1 + a + p2);
    assert(p1 =~= seq!['<', 'T', 'e', 'm', 'p', 'o', '>', '<', 'M', 'a', 'n', 'u', 'a', 'l', ' ', 'V', 'a', 'l', 'u', 'e', '=', '"']);
    assert(p2 =~= seq!['"', '/', '>', '<', '/', 'T', 'e', 'm', 'p', 'o', '>']);
    assert forall|k: int| 0 <= k < a.len() + 25 implies !(#[trigger] r[k] == '<' && r[k + 1] == '/') by {
        if k < 22 {
            assert(r[k] == p1[k]);
            if k < 21 {
                assert(r[k + 1] == p1[k + 1]);
            }
        } else if k < 22 + a.len() {
            assert(r[k] == a[k - 22]);
            if a[k - 22] == '<' {
                assert(a.contains('<'));
            }
        } else {
            assert(r[k] == p2[k - 22 - a.len()]);
        }
    }
}

/// A tempo element whose tempo text holds no `<` has no `</Tempo>` but
/// its own end.
proof fn lemma_tempo_element_plain(a: Seq<char>)
    requires
        !a.contains('<'),
    ensures
        find(tempo_element(a), tempo_close()) == Some(a.len() + 25int),
{
    let r = tempo_element(a);
    lemma_tempo_element_shape(a);
    lemma_tempo_no_early_close(a);
    assert forall|k: int| 0 <= k < a.len() + 25 implies !matches_at(r, tempo_close(), k) by {
        if matches_at(r, tempo_close(), k) {
            assert(r.subrange(k, k + 8)[0] == r[k]);
            assert(r.subrange(k, k + 8)[1] == r[k + 1]);
        }
    }
    lemma_find_from_unique(r, tempo_close(), 0, a.len() + 25int);
}

/// Setting the tempo twice leaves the second tempo text when the first
/// holds no `<`, as no formatted number does.
pub proof fn law_set_tempo_twice_plain(x: Seq<char>, a: Seq<char>, b: Seq<char>)
    requires
        !a.contains('<'),
    ensures
        set_tempo_spec(set_tempo_spec(x, a), b) == set_tempo_spec(x, b),
{
    lemma_tempo_element_plain(a);
    law_set_tempo_twice(x, a, b);
}

/// `<CurrentEnd Value="length"/>`
pub open spec fn current_end_of(length: Seq<char>) -> Seq<char> {
    "<CurrentEnd Value=\""@ + length + "\"/>"@
}

/// `<LoopEnd Value="length"/>`
pub open spec fn loop_end_of(length: Seq<char>) -> Seq<char> {
    "<LoopEnd Value=\""@ + length + "\"/>"@
}

/// `<HiddenLoopEnd Value="length"/>`
pub open spec fn hidden_loop_end_of(length: Seq<char>) -> Seq<char> {
    "<HiddenLoopEnd Value=\""@ + length + "\"/>"@
}

/// `p` occurs somewhere in `s`.
pub open spec fn occurs_in(s: Seq<char>, p: Seq<char>) -> bool {
    exists|i: int| #[trigger] matches_at(s, p, i)
}

/// What stands between `a` and `b` in `a + m + b` is `m`.
proof fn lemma_occurs_between(a: Seq<char>, m: Seq<char>, b: Seq<char>)
    ensures
        occurs_in(a + m + b, m),
{
    let s = a + m + b;
    assert(s.subrange(a.len() as int, a.len() + m.len() as int) =~= m);
    assert(matches_at(s, m, a.len() as int));
}

/// A clip's text shows its length as the end of the clip, of its loop
/// and of its hidden loop.
proof fn lemma_clip_ends(id: nat, length: Seq<char>, kt: Seq<char>)
    ensures
        occurs_in(clip_text(id, length, kt), current_end_of(length)),
        occurs_in(clip_text(id, length, kt), loop_end_of(length)),
        occurs_in(clip_text(id, length, kt), hidden_loop_end_of(length)),
{
    reveal_strlit("<CurrentStart Value=\"0\"/><CurrentEnd Value=\"");
    reveal_strlit("<CurrentStart Value=\"0\"/>");
    reveal_strlit("<CurrentEnd Value=\"");
    reveal_strlit("\"/><Loop><LoopStart Value=\"0\"/><LoopEnd Value=\"");
    reveal_strlit("\"/>");
    reveal_strlit("<Loop><LoopStart Value=\"0\"/>");
    reveal_strlit("<LoopEnd Value=\"");
    reveal_strlit("\"/><StartRelative Value=\"0\"/><LoopOn Value=\"true\"/><HiddenLoopStart Value=\"0\"/><HiddenLoopEnd Value=\"");
    reveal_strlit("<StartRelative Value=\"0\"/><LoopOn Value=\"true\"/><HiddenLoopStart Value=\"0\"/>");
    reveal_strlit("<HiddenLoopEnd Value=\"");
    reveal_strlit("\"/></Loop>");
    reveal_strlit("</Loop>");
    let q = "\"/>"@;
    let s1 = "<CurrentStart Value=\"0\"/>"@;
    let e1 = "<CurrentEnd Value=\""@;
    let s2 = "<Loop><LoopStart Value=\"0\"/>"@;
    let e2 = "<LoopEnd Value=\""@;
    let s3 = "<StartRelative Value=\"0\"/><LoopOn Value=\"true\"/><HiddenLoopStart Value=\"0\"/>"@;
    let e3 = "<HiddenLoopEnd Value=\""@;
    let s4 = "</Loop>"@;
    assert("<CurrentStart Value=\"0\"/><CurrentEnd Value=\""@ =~= s1 + e1);
    assert("\"/><Loop><LoopStart Value=\"0\"/><LoopEnd Value=\""@ =~= q + s2 + e2);
    assert("\"/><StartRelative Value=\"0\"/><LoopOn Value=\"true\"/><HiddenLoopStart Value=\"0\"/><HiddenLoopEnd Value=\""@
        =~= q + s3 + e3);
    assert("\"/></Loop>"@ =~= q + s4);
    let head = "<MidiClip Id=\""@ + decimal(id) + "\">"@;
    let tail = "<Name><EffectiveName Value=\"MCF Clip\"/></Name>"@ + "<Notes><KeyTracks>"@ + kt
        + "</KeyTracks></Notes>"@ + "</MidiClip>"@;
    let c = clip_text(id, length, kt);
    assert(c =~= (head + s1) + current_end_of(length) + (s2 + loop_end_of(length) + s3 + hidden_loop_end_of(length) + s4 + tail));
    lemma_occurs_between(head + s1, current_end_of(length), s2 + loop_end_of(length) + s3 + hidden_loop_end_of(length) + s4 + tail);
    assert(c =~= (head + s1 + current_end_of(length) + s2) + loop_end_of(length) + (s3 + hidden_loop_end_of(length) + s4 + tail));
    lemma_occurs_between(head + s1 + current_end_of(length) + s2, loop_end_of(length), s3 + hidden_loop_end_of(length) + s4 + tail);
    assert(c =~= (head + s1 + current_end_of(length) + s2 + loop_end_of(length) + s3) + hidden_loop_end_of(length) + (s4 + tail));
    lemma_occurs_between(head + s1 + current_end_of(length) + s2 + loop_end_of(length) + s3, hidden_loop_end_of(length), s4 + tail);
}

/// What occurs in `c` occurs in `a + c + b`.
proof fn lemma_occurs_within(a: Seq<char>, c: Seq<char>, b: Seq<char>, m: Seq<char>)
    requires
        occurs_in(c, m),
    ensures
        occurs_in(a + c + b, m),
{
    let i = choose|i: int| #[trigger] matches_at(c, m, i);
    let s = a + c + b;
    assert(s.subrange(a.len() + i, a.len() + i + m.len()) =~= c.subrange(i, i + m.len()));
    assert(matches_at(s, m, a.len() + i));
}

/// A track that has an event list, in any of its three forms, holds the
/// clip placed into it.
proof fn lemma_inject_holds_clip(t: Seq<char>, clip: Seq<char>, m: Seq<char>)
    requires
        find(t, events_open()) is Some || find(t, events_empty_spaced()) is Some || find(t, events_empty()) is Some,
        occurs_in(clip, m),
    ensures
        occurs_in(inject_clip_spec(t, clip), m),
{
    match find(t, events_open()) {
        Some(p) => {
            lemma_occurs_within(t.take(p + 8), clip, t.skip(p + 8), m);
        },
        None => match find(t, events_empty_spaced()) {
            Some(p) => {
                assert(inject_clip_spec(t, clip) =~= (t.take(p) + events_open()) + clip + (events_close() + t.skip(p + 10)));
                lemma_occurs_within(t.take(p) + events_open(), clip, events_close() + t.skip(p + 10), m);
            },
            None => {
                let p = find(t, events_empty())->0;
                assert(inject_clip_spec(t, clip) =~= (t.take(p) + events_open()) + clip + (events_close() + t.skip(p + 9)));
                lemma_occurs_within(t.take(p) + events_open(), clip, events_close() + t.skip(p + 9), m);
            },
        },
    }
}

/// A track that some note is played on has note indices.
proof fn lemma_track_has_notes(notes: Seq<NoteModel>, tid: Seq<char>, j: int, m: int)
    requires
        0 <= m < j <= notes.len(),
        notes[m].track_id == tid,
    ensures
        track_note_indices(notes, tid, j).len() > 0,
    decreases j,
{
    if m < j - 1 {
        lemma_track_has_notes(notes, tid, j - 1, m);
    }
}

/// The clip of each track that has notes loops over that track's own clip
/// length: the track's text shows `clip_lengths[k]` as the end of the
/// clip, of its loop and of its hidden loop, whenever the track template,
/// renumbered and named, has an event list to hold the clip.
pub proof fn law_track_clip_length(tt: Seq<char>, proj: ProjectModel, nums: SetNumbersModel, k: int, c: nat)
    requires
        0 <= k < proj.tracks.len(),
        k < nums.clip_lengths.len(),
        exists|j: int| 0 <= j < proj.notes.len() && #[trigger] proj.notes[j].track_id == proj.tracks[k].id,
        ({
            let x2 = replace_name_spec(rewrite_ids_spec(tt, c).0, proj.tracks[k].name);
            find(x2, events_open()) is Some || find(x2, events_empty_spaced()) is Some || find(x2, events_empty()) is Some
        }),
    ensures
        occurs_in(track_text(tt, proj, nums, k, c).0, current_end_of(nums.clip_lengths[k])),
        occurs_in(track_text(tt, proj, nums, k, c).0, loop_end_of(nums.clip_lengths[k])),
        occurs_in(track_text(tt, proj, nums, k, c).0, hidden_loop_end_of(nums.clip_lengths[k])),
{
    let track = proj.tracks[k];
    let (x1, c1) = rewrite_ids_spec(tt, c);
    let x2 = replace_name_spec(x1, track.name);
    let idx = track_note_indices(proj.notes, track.id, proj.notes.len() as int);
    let (kt, c2) = key_tracks(nums, proj.notes, idx, 256, c1 + 1);
    let l = nums.clip_lengths[k];
    let clip = clip_text(c1, l, kt);
    let m = choose|j: int| 0 <= j < proj.notes.len() && #[trigger] proj.notes[j].track_id == proj.tracks[k].id;
    lemma_track_has_notes(proj.notes, track.id, proj.notes.len() as int, m);
    assert(track_text(tt, proj, nums, k, c).0 == inject_clip_spec(x2, clip));
    lemma_clip_ends(c1, l, kt);
    lemma_inject_holds_clip(x2, clip, current_end_of(l));
    lemma_inject_holds_clip(x2, clip, loop_end_of(l));
    lemma_inject_holds_clip(x2, clip, hidden_loop_end_of(l));
}

/// The events of a pitch depend on the numbers only through the note
/// times and durations.
proof fn lemma_pitch_events_numbers(n1: SetNumbersModel, n2: SetNumbersModel, notes: Seq<NoteModel>, idx: Seq<int>, p: u8)
    requires
        n1.note_times == n2.note_times,
        n1.note_durations == n2.note_durations,
    ensures
        pitch_events(n1, notes, idx, p) == pitch_events(n2, notes, idx, p),
    decreases idx.len(),
{
    if idx.len() > 0 {
        lemma_pitch_events_numbers(n1, n2, notes, idx.drop_last(), p);
    }
}

/// Key tracks depend on the numbers only through the note times and
/// durations.
proof fn lemma_key_tracks_numbers(n1: SetNumbersModel, n2: SetNumbersModel, notes: Seq<NoteModel>, idx: Seq<int>, q: nat, c: nat)
    requires
        n1.note_times == n2.note_times,
        n1.note_durations == n2.note_durations,
    ensures
        key_tracks(n1, notes, idx, q, c) == key_tracks(n2, notes, idx, q, c),
    decreases q,
{
    if q > 0 {
        lemma_key_tracks_numbers(n1, n2, notes, idx, (q - 1) as nat, c);
        lemma_pitch_events_numbers(n1, n2, notes, idx, (q - 1) as u8);
    }
}

/// A track's clip length is its own: changing the clip length of track
/// `k` leaves the text of every other track, and the ids it hands out,
/// as they were.
pub proof fn law_clip_length_local(
    tt: Seq<char>,
    proj: ProjectModel,
    nums: SetNumbersModel,
    k: int,
    len: Seq<char>,
    j: int,
    c: nat,
)
    requires
        0 <= k < nums.clip_lengths.len(),
        0 <= j < nums.clip_lengths.len(),
        j != k,
    ensures
        track_text(tt, proj, SetNumbersModel { clip_lengths: nums.clip_lengths.update(k, len), ..nums }, j, c)
            == track_text(tt, proj, nums, j, c),
{
    let n2 = SetNumbersModel { clip_lengths: nums.clip_lengths.update(k, len), ..nums };
    let track = proj.tracks[j];
    let c1 = rewrite_ids_spec(tt, c).1;
    let idx = track_note_indices(proj.notes, track.id, proj.notes.len() as int);
    lemma_key_tracks_numbers(n2, nums, proj.notes, idx, 256, c1 + 1);
    assert(n2.clip_lengths[j] == nums.clip_lengths[j]);
}

/// Renumbers every `Id="..."` value of `xml` in order, starting from
/// `*start_id`, and leaves the next unused number in `*start_id`.
pub fn rewrite_ids(xml: &str, start_id: &mut usize) -> (res: String)
    requires
        rewrite_ids_spec(xml@, *old(start_id) as nat).1 <= usize::MAX,
    ensures
        res@ == rewrite_ids_spec(xml@, *old(start_id) as nat).0,
        *final(start_id) as nat == rewrite_ids_spec(xml@, *old(start_id) as nat).1,
{
    let x = to_chars(xml);
    let out = rewrite_ids_chars(&x, start_id);
    from_chars(&out)
}

/// `rewrite_ids` on characters.
fn rewrite_ids_chars(x: &Vec<char>, start_id: &mut usize) -> (res: Vec<char>)
    requires
        rewrite_ids_spec(x@, *old(start_id) as nat).1 <= usize::MAX,
    ensures
        res@ == rewrite_ids_spec(x@, *old(start_id) as nat).0,
        *final(start_id) as nat == rewrite_ids_spec(x@, *old(start_id) as nat).1,
{
    let pat = chars_id_open();
    let q = chars_quote();
    let ghost target = rewrite_ids_spec(x@, *start_id as nat);
    let first = find_from_exec(x, &pat, 0);
    proof {
        lemma_find_from(x@, pat@, 0);
    }
    match first {
        None => {
            let mut out: Vec<char> = Vec::new();
            extend_all(&mut out, x);
            assert(out@ =~= x@);
            return out;
        },
        Some(i) => {
            let mut out: Vec<char> = Vec::new();
            extend_range(&mut out, &x, 0, i);
            assert(out@ =~= x@.take(i as int));
            assert(find_from(x@, pat@, 0) == Some(i as int));
            assert(matches_at(x@, pat@, i as int));
            assert(pat@.len() == 4);
            let xlen = x.len();
            assert(i + 4 <= xlen);
            let mut pos = i + 4;
            loop
                invariant
                    pos <= x.len(),
                    pat@ == id_open(),
                    q@ == quote(),
                    target == rewrite_ids_spec(x@, *old(start_id) as nat),
                    out@ + rewrite_from(x@, pos as int, *start_id as nat).0 == target.0,
                    rewrite_from(x@, pos as int, *start_id as nat).1 == target.1,
                    target.1 <= usize::MAX,
                decreases x.len() - pos,
            {
                let ghost n = *start_id as nat;
                let ghost cur = rewrite_from(x@, pos as int, n);
                let m = find_from_exec(x, &pat, pos);
                proof {
                    lemma_find_from(x@, pat@, pos as int);
                }
                let end = match m {
                    Some(k) => k,
                    None => x.len(),
                };
                let e = find_from_exec(x, &q, pos);
                proof {
                    lemma_find_from(x@, q@, pos as int);
                    lemma_find_from_take(x@, q@, pos as int, end as int);
                }
                let ghost out_before = out@;
                let ghost n2: nat;
                let mut quoted = false;
                if let Some(e) = e {
                    if e + 1 <= end {
                        quoted = true;
                    }
                }
                if quoted {
                    let e = e.unwrap();
                    proof {
                        n2 = n + 1;
                        let rest = rewrite_from(x@, end as int + 4, n2);
                        if m is Some {
                            lemma_rewrite_from_counter(x@, end as int + 4, n2);
                        }
                    }
                    extend_all(&mut out, &pat);
                    let digits = decimal_chars(*start_id);
                    extend_all(&mut out, &digits);
                    extend_all(&mut out, &q);
                    extend_range(&mut out, &x, e + 1, end);
                    *start_id = *start_id + 1;
                } else {
                    proof {
                        n2 = n;
                    }
                    extend_all(&mut out, &pat);
                    extend_range(&mut out, &x, pos, end);
                }
                match m {
                    None => {
                        assert(out@ =~= target.0);
                        assert(*start_id as nat == target.1);
                        return out;
                    },
                    Some(k) => {
                        assert(out@ + rewrite_from(x@, k + 4, *start_id as nat).0 =~= target.0);
                        pos = k + 4;
                    },
                }
            }
        },
    }
}

fn chars_quote() -> (v: Vec<char>)
    ensures
        v@ == quote(),
{
    let v = to_chars("\"");
    proof {
        reveal_strlit("\"");
    }
    assert(v@ =~= quote());
    v
}

/// Replaces the value that follows the first `tag` up to the next quote.
fn replace_value_after_exec(x: &Vec<char>, tag: &Vec<char>, v: &Vec<char>) -> (res: Vec<char>)
    ensures
        res@ == replace_value_after(x@, tag@, v@),
{
    let q = chars_quote();
    let mut out: Vec<char> = Vec::new();
    let st = find_from_exec(x, tag, 0);
    proof {
        lemma_find_from(x@, tag@, 0);
    }
    match st {
        None => {
            extend_all(&mut out, x);
            out
        },
        Some(st) => {
            assert(find_from(x@, tag@, 0) == Some(st as int));
            assert(matches_at(x@, tag@, st as int));
            let xlen = x.len();
            assert(st + tag@.len() <= xlen);
            let from = st + tag.len();
            let e = find_from_exec(x, &q, from);
            proof {
                lemma_find_from(x@, q@, from as int);
            }
            match e {
                None => {
                    extend_all(&mut out, x);
                    out
                },
                Some(e) => {
                    assert(matches_at(x@, q@, e as int));
                    extend_range(&mut out, x, 0, from);
                    extend_all(&mut out, v);
                    extend_range(&mut out, x, e, x.len());
                    assert(out@ =~= splice(x@, from as int, e as int, v@));
                    out
                },
            }
        },
    }
}

/// Sets the track name: the value of the first `<EffectiveName Value="...`
/// becomes `new_name`.
pub fn replace_name(xml: &str, new_name: &str) -> (res: String)
    ensures
        res@ == replace_name_spec(xml@, new_name@),
{
    let x = to_chars(xml);
    let tag = to_chars("<EffectiveName Value=\"");
    proof {
        reveal_strlit("<EffectiveName Value=\"");
    }
    assert(tag@ =~= effective_name_tag());
    let v = to_chars(new_name);
    let out = replace_value_after_exec(&x, &tag, &v);
    from_chars(&out)
}

/// Sets the value of the first `<NextPointeeId Value="...` to `max_id`.
pub fn update_next_pointee_id(xml: &str, max_id: usize) -> (res: String)
    ensures
        res@ == next_pointee_spec(xml@, max_id as nat),
{
    let x = to_chars(xml);
    let tag = to_chars("<NextPointeeId Value=\"");
    proof {
        reveal_strlit("<NextPointeeId Value=\"");
    }
    assert(tag@ =~= next_pointee_tag());
    let v = decimal_chars(max_id);
    let out = replace_value_after_exec(&x, &tag, &v);
    from_chars(&out)
}

/// Replaces the first `<Tempo>` element by one whose manual value is the
/// text `bpm`.
pub fn set_tempo(xml: &str, bpm: &str) -> (res: String)
    ensures
        res@ == set_tempo_spec(xml@, bpm@),
{
    let x = to_chars(xml);
    let b = to_chars(bpm);
    let out = set_tempo_chars(&x, &b);
    from_chars(&out)
}

/// `set_tempo` on characters.
fn set_tempo_chars(x: &Vec<char>, b: &Vec<char>) -> (res: Vec<char>)
    ensures
        res@ == set_tempo_spec(x@, b@),
{
    let open = to_chars("<Tempo>");
    let close = to_chars("</Tempo>");
    let manual = to_chars("<Manual Value=\"");
    let tail = to_chars("\"/>");
    proof {
        reveal_strlit("<Tempo>");
        reveal_strlit("</Tempo>");
        reveal_strlit("<Manual Value=\"");
        reveal_strlit("\"/>");
    }
    assert(open@ =~= tempo_open());
    assert(close@ =~= tempo_close());
    assert(manual@ =~= manual_value_open());
    assert(tail@ =~= empty_close());
    let st = find_from_exec(x, &open, 0);
    proof {
        lemma_find_from(x@, open@, 0);
    }
    match st {
        None => copy_chars(x),
        Some(st) => {
            let e = find_from_exec(x, &close, st);
            proof {
                lemma_find_from(x@, close@, st as int);
            }
            match e {
                None => copy_chars(x),
                Some(e) => {
                    assert(find_from(x@, close@, st as int) == Some(e as int));
                    assert(matches_at(x@, close@, e as int));
                    let xlen = x.len();
                    assert(e + close@.len() <= xlen);
                    let mut out: Vec<char> = Vec::new();
                    extend_range(&mut out, &x, 0, st);
                    extend_all(&mut out, &open);
                    extend_all(&mut out, &manual);
                    extend_all(&mut out, b);
                    extend_all(&mut out, &tail);
                    extend_all(&mut out, &close);
                    extend_range(&mut out, &x, e + 8, x.len());
                    assert(out@ =~= splice(x@, st as int, e + 8, tempo_element(b@)));
                    out
                },
            }
        },
    }
}

/// Places `clip_xml` into the first event list of `track_xml`: after an
/// `<Events>` opening tag, or in place of an empty `<Events />` or
/// `<Events/>`.
pub fn inject_clip(track_xml: &str, clip_xml: &str) -> (res: String)
    ensures
        res@ == inject_clip_spec(track_xml@, clip_xml@),
{
    let t = to_chars(track_xml);
    let clip = to_chars(clip_xml);
    let out = inject_clip_chars(&t, &clip);
    from_chars(&out)
}

/// `inject_clip` on characters.
fn inject_clip_chars(t: &Vec<char>, clip: &Vec<char>) -> (res: Vec<char>)
    ensures
        res@ == inject_clip_spec(t@, clip@),
{
    let open = to_chars("<Events>");
    let close = to_chars("</Events>");
    let spaced = to_chars("<Events />");
    let empty = to_chars("<Events/>");
    proof {
        reveal_strlit("<Events>");
        reveal_strlit("</Events>");
        reveal_strlit("<Events />");
        reveal_strlit("<Events/>");
    }
    assert(open@ =~= events_open());
    assert(close@ =~= events_close());
    assert(spaced@ =~= events_empty_spaced());
    assert(empty@ =~= events_empty());
    let mut out: Vec<char> = Vec::new();
    let p1 = find_from_exec(t, &open, 0);
    proof {
        lemma_find_from(t@, open@, 0);
    }
    if let Some(p) = p1 {
        assert(find_from(t@, open@, 0) == Some(p as int));
        assert(matches_at(t@, open@, p as int));
        let tlen = t.len();
        assert(p + open@.len() <= tlen);
        extend_range(&mut out, &t, 0, p + 8);
        extend_all(&mut out, clip);
        extend_range(&mut out, &t, p + 8, t.len());
        assert(out@ =~= splice(t@, p + 8, p + 8, clip@));
        return out;
    }
    let p2 = find_from_exec(t, &spaced, 0);
    proof {
        lemma_find_from(t@, spaced@, 0);
    }
    let p3 = find_from_exec(t, &empty, 0);
    proof {
        lemma_find_from(t@, empty@, 0);
    }
    let (p, n) = match p2 {
        Some(p) => (p, 10),
        None => match p3 {
            Some(p) => (p, 9),
            None => {
                return copy_chars(t);
            },
        },
    };
    assert(p + n <= t.len()) by {
        if p2 is Some {
            assert(matches_at(t@, spaced@, p as int));
        } else {
            assert(matches_at(t@, empty@, p as int));
        }
    }
    extend_range(&mut out, &t, 0, p);
    extend_all(&mut out, &open);
    extend_all(&mut out, clip);
    extend_all(&mut out, &close);
    extend_range(&mut out, &t, p + n, t.len());
    assert(out@ =~= splice(t@, p as int, p + n, events_open() + clip@ + events_close()));
    out
}

/// The indices held by `v`, as integers.
pub open spec fn as_ints(v: Seq<usize>) -> Seq<int> {
    v.map_values(|i: usize| i as int)
}

/// The indices, in order, of the notes played on the track with id `tid`.
fn track_note_indices_exec(notes: &Vec<Note>, tid: &String) -> (r: Vec<usize>)
    ensures
        as_ints(r@) == track_note_indices(notes@.map_values(|n: Note| n@), tid@, notes.len() as int),
        forall|k: int| 0 <= k < r.len() ==> #[trigger] r@[k] < notes.len(),
{
    let ghost nm = notes@.map_values(|n: Note| n@);
    let mut r: Vec<usize> = Vec::new();
    let mut j: usize = 0;
    while j < notes.len()
        invariant
            j <= notes.len(),
            nm == notes@.map_values(|n: Note| n@),
            as_ints(r@) == track_note_indices(nm, tid@, j as int),
            forall|k: int| 0 <= k < r.len() ==> #[trigger] r@[k] < j,
        decreases notes.len() - j,
    {
        assert(nm[j as int] == notes@[j as int]@);
        if notes[j].track_id == *tid {
            r.push(j);
            assert(as_ints(r@) =~= track_note_indices(nm, tid@, j as int).push(j as int));
        }
        j = j + 1;
    }
    r
}

/// The key tracks of a track's notes (at `idx`), numbered from `*counter`;
/// `None` when the ids would pass `usize::MAX`.
fn key_tracks_exec(nums: &SetNumbers, notes: &Vec<Note>, idx: &Vec<usize>, counter: &mut usize) -> (r: Option<Vec<char>>)
    requires
        nums.note_times.len() == notes.len(),
        nums.note_durations.len() == notes.len(),
        forall|k: int| 0 <= k < idx.len() ==> #[trigger] idx@[k] < notes.len(),
    ensures
        ({
            let spec_r = key_tracks(nums@, notes@.map_values(|n: Note| n@), as_ints(idx@), 256, *old(counter) as nat);
            match r {
                Some(v) => v@ == spec_r.0 && *final(counter) as nat == spec_r.1,
                None => spec_r.1 > usize::MAX,
            }
        }),
{
    let ghost nm = notes@.map_values(|n: Note| n@);
    let ghost ix = as_ints(idx@);
    let ghost c0 = *counter as nat;
    let open_kt = to_chars("<KeyTrack Id=\"");
    let close_tag = to_chars("\">");
    let key = to_chars("<MidiKey Value=\"");
    let empty_end = to_chars("\"/>");
    let notes_open = to_chars("<Notes>");
    let notes_close = to_chars("</Notes>");
    let kt_close = to_chars("</KeyTrack>");
    let ev_time = to_chars("<MidiNoteEvent Time=\"");
    let ev_dur = to_chars("\" Duration=\"");
    let ev_vel = to_chars("\" Velocity=\"");
    let mut out: Vec<char> = Vec::new();
    let mut p: usize = 0;
    while p < 256
        invariant
            p <= 256,
            nm == notes@.map_values(|n: Note| n@),
            ix == as_ints(idx@),
            nums.note_times.len() == notes.len(),
            nums.note_durations.len() == notes.len(),
            forall|k: int| 0 <= k < idx.len() ==> #[trigger] idx@[k] < notes.len(),
            open_kt@ == "<KeyTrack Id=\""@,
            close_tag@ == "\">"@,
            key@ == "<MidiKey Value=\""@,
            empty_end@ == "\"/>"@,
            notes_open@ == "<Notes>"@,
            notes_close@ == "</Notes>"@,
            kt_close@ == "</KeyTrack>"@,
            ev_time@ == "<MidiNoteEvent Time=\""@,
            ev_dur@ == "\" Duration=\""@,
            ev_vel@ == "\" Velocity=\""@,
            (out@, *counter as nat) == key_tracks(nums@, nm, ix, p as nat, c0),
            c0 == *old(counter) as nat,
        decreases 256 - p,
    {
        let pu = p as u8;
        let mut events: Vec<char> = Vec::new();
        let mut found = false;
        let mut i: usize = 0;
        while i < idx.len()
            invariant
                i <= idx.len(),
                nm == notes@.map_values(|n: Note| n@),
                ix == as_ints(idx@),
                nums.note_times.len() == notes.len(),
                nums.note_durations.len() == notes.len(),
                forall|k: int| 0 <= k < idx.len() ==> #[trigger] idx@[k] < notes.len(),
                ev_time@ == "<MidiNoteEvent Time=\""@,
                ev_dur@ == "\" Duration=\""@,
                ev_vel@ == "\" Velocity=\""@,
                empty_end@ == "\"/>"@,
                events@ == pitch_events(nums@, nm, ix.take(i as int), pu),
                found == has_pitch(nm, ix.take(i as int), pu),
            decreases idx.len() - i,
        {
            let j = idx[i];
            assert(ix.take(i + 1).drop_last() =~= ix.take(i as int));
            assert(ix.take(i + 1).last() == j as int);
            assert(nm[j as int] == notes@[j as int]@);
            if notes[j].pitch == pu {
                let ghost before = events@;
                let t = to_chars(nums.note_times[j].as_str());
                let d = to_chars(nums.note_durations[j].as_str());
                let v = decimal_chars(notes[j].velocity as usize);
                extend_all(&mut events, &ev_time);
                extend_all(&mut events, &t);
                extend_all(&mut events, &ev_dur);
                extend_all(&mut events, &d);
                extend_all(&mut events, &ev_vel);
                extend_all(&mut events, &v);
                extend_all(&mut events, &empty_end);
                assert(nums@.note_times[j as int] == nums.note_times@[j as int]@);
                assert(nums@.note_durations[j as int] == nums.note_durations@[j as int]@);
                assert(events@ =~= before + note_event(nums@.note_times[j as int], nums@.note_durations[j as int], nm[j as int].velocity));
                found = true;
                assert(ix.take(i + 1)[i as int] == j as int);
            } else {
                assert(ix.take(i + 1)[i as int] == j as int);
            }
            assert(found == has_pitch(nm, ix.take(i + 1), pu)) by {
                if has_pitch(nm, ix.take(i as int), pu) {
                    let k = choose|k: int| 0 <= k < i && nm[#[trigger] ix.take(i as int)[k]].pitch == pu;
                    assert(ix.take(i as int)[k] == ix.take(i + 1)[k]);
                }
                if has_pitch(nm, ix.take(i + 1), pu) {
                    let k = choose|k: int| 0 <= k < i + 1 && nm[#[trigger] ix.take(i + 1)[k]].pitch == pu;
                    if k < i {
                        assert(ix.take(i as int)[k] == ix.take(i + 1)[k]);
                    }
                }
            }
            i = i + 1;
        }
        assert(ix.take(idx.len() as int) =~= ix);
        assert(p as nat == (p + 1) as nat - 1);
        assert(pu == ((p + 1) as nat - 1) as u8);
        if found {
            if *counter == usize::MAX {
                proof {
                    assert(has_pitch(nm, ix, pu));
                    assert(key_tracks(nums@, nm, ix, (p + 1) as nat, c0).1 == key_tracks(nums@, nm, ix, p as nat, c0).1 + 1);
                    lemma_key_tracks_counter(nums@, nm, ix, 256, c0);
                    lemma_key_tracks_grow(nums@, nm, ix, (p + 1) as nat, 256, c0);
                    assert(key_tracks(nums@, nm, ix, 256, c0).1 > usize::MAX);
                }
                return None;
            }
            let ghost before = out@;
            let id = decimal_chars(*counter);
            let pd = decimal_chars(p);
            extend_all(&mut out, &open_kt);
            extend_all(&mut out, &id);
            extend_all(&mut out, &close_tag);
            extend_all(&mut out, &key);
            extend_all(&mut out, &pd);
            extend_all(&mut out, &empty_end);
            extend_all(&mut out, &notes_open);
            extend_all(&mut out, &events);
            extend_all(&mut out, &notes_close);
            extend_all(&mut out, &kt_close);
            assert(out@ =~= before + key_track(*counter as nat, pu, pitch_events(nums@, nm, ix, pu)));
            *counter = *counter + 1;
        }
        p = p + 1;
    }
    Some(out)
}

/// The XML of track `k` (see `track_text`), handing out ids from
/// `*counter`; `None` when the ids would pass `usize::MAX`.
fn track_xml_exec(
    tt: &Vec<char>,
    tt_ids: usize,
    project: &McfProject,
    nums: &SetNumbers,
    k: usize,
    counter: &mut usize,
) -> (r: Option<Vec<char>>)
    requires
        k < project.tracks.len(),
        nums.clip_lengths.len() == project.tracks.len(),
        nums.note_times.len() == project.notes.len(),
        nums.note_durations.len() == project.notes.len(),
        tt_ids == rewrite_ids_spec(tt@, 0).1,
    ensures
        ({
            let sr = track_text(tt@, project@, nums@, k as int, *old(counter) as nat);
            match r {
                Some(v) => v@ == sr.0 && *final(counter) as nat == sr.1,
                None => sr.1 > usize::MAX,
            }
        }),
{
    let ghost c0 = *counter as nat;
    let ghost sr = track_text(tt@, project@, nums@, k as int, c0);
    let ghost track = project@.tracks[k as int];
    assert(track == project.tracks@[k as int]@);
    proof {
        law_rewrite_ids_count(tt@, c0);
    }
    let ghost c1 = rewrite_ids_spec(tt@, c0).1;
    let ghost idx_spec = track_note_indices(project@.notes, track.id, project@.notes.len() as int);
    proof {
        lemma_key_tracks_counter(nums@, project@.notes, idx_spec, 256, c1 + 1);
    }
    if *counter > usize::MAX - tt_ids {
        return None;
    }
    let x1 = rewrite_ids_chars(tt, counter);
    let tag = to_chars("<EffectiveName Value=\"");
    proof {
        reveal_strlit("<EffectiveName Value=\"");
    }
    assert(tag@ =~= effective_name_tag());
    let name = to_chars(project.tracks[k].name.as_str());
    let x2 = replace_value_after_exec(&x1, &tag, &name);
    if *counter == usize::MAX {
        return None;
    }
    let clip_id = *counter;
    *counter = *counter + 1;
    let idx = track_note_indices_exec(&project.notes, &project.tracks[k].id);
    let kt = match key_tracks_exec(nums, &project.notes, &idx, counter) {
        None => {
            return None;
        },
        Some(kt) => kt,
    };
    let length = to_chars(nums.clip_lengths[k].as_str());
    assert(nums@.clip_lengths[k as int] == nums.clip_lengths@[k as int]@);
    let mut clip: Vec<char> = Vec::new();
    extend_all(&mut clip, &to_chars("<MidiClip Id=\""));
    extend_all(&mut clip, &decimal_chars(clip_id));
    extend_all(&mut clip, &to_chars("\">"));
    extend_all(&mut clip, &to_chars("<CurrentStart Value=\"0\"/><CurrentEnd Value=\""));
    extend_all(&mut clip, &length);
    extend_all(&mut clip, &to_chars("\"/><Loop><LoopStart Value=\"0\"/><LoopEnd Value=\""));
    extend_all(&mut clip, &length);
    extend_all(&mut clip, &to_chars("\"/><StartRelative Value=\"0\"/><LoopOn Value=\"true\"/><HiddenLoopStart Value=\"0\"/><HiddenLoopEnd Value=\""));
    extend_all(&mut clip, &length);
    extend_all(&mut clip, &to_chars("\"/></Loop>"));
    extend_all(&mut clip, &to_chars("<Name><EffectiveName Value=\"MCF Clip\"/></Name>"));
    extend_all(&mut clip, &to_chars("<Notes><KeyTracks>"));
    extend_all(&mut clip, &kt);
    extend_all(&mut clip, &to_chars("</KeyTracks></Notes>"));
    extend_all(&mut clip, &to_chars("</MidiClip>"));
    assert(clip@ =~= clip_text(c1, nums@.clip_lengths[k as int], kt@));
    if idx.len() > 0 {
        Some(inject_clip_chars(&x2, &clip))
    } else {
        Some(x2)
    }
}

/// Assembles the Live set text from the template text and a project (see
/// `live_set_text`).
pub fn assemble(template: &str, project: &McfProject, nums: &SetNumbers) -> (r: Result<String, SetError>)
    requires
        nums.clip_lengths.len() == project.tracks.len(),
        nums.note_times.len() == project.notes.len(),
        nums.note_durations.len() == project.notes.len(),
    ensures
        match r {
            Ok(s) => live_set_text(template@, project@, nums@) == Ok::<Seq<char>, SetError>(s@),
            Err(e) => live_set_text(template@, project@, nums@) == Err::<Seq<char>, SetError>(e),
        },
{
    let x = to_chars(template);
    let open = to_chars("<MidiTrack");
    let close = to_chars("</MidiTrack>");
    proof {
        reveal_strlit("</MidiTrack>");
    }
    assert(close@.len() == 12);
    let ts = match find_from_exec(&x, &open, 0) {
        None => {
            return Err(SetError::NoMidiTrack);
        },
        Some(ts) => ts,
    };
    let te = match find_from_exec(&x, &close, ts) {
        None => {
            return Err(SetError::NoClosingMidiTrack);
        },
        Some(te) => te,
    };
    proof {
        lemma_find_from(x@, close@, ts as int);
        lemma_find_from(x@, open@, 0);
    }
    assert(matches_at(x@, close@, te as int));
    let xlen = x.len();
    assert(te + 12 <= xlen);
    let end = te + 12;
    let mut tt: Vec<char> = Vec::new();
    assert(find_from(x@, open@, 0) == Some(ts as int));
    assert(ts <= te);
    extend_range(&mut tt, &x, ts, end);
    let mut zero: usize = 0;
    proof {
        law_rewrite_ids_count(tt@, 0);
    }
    let _ = rewrite_ids_chars(&tt, &mut zero);
    let tt_ids = zero;
    let mut counter: usize = 100000;
    let mut body: Vec<char> = Vec::new();
    let ntracks = project.tracks.len();
    let mut k: usize = 0;
    while k < ntracks
        invariant
            k <= ntracks == project.tracks.len(),
            nums.clip_lengths.len() == project.tracks.len(),
            nums.note_times.len() == project.notes.len(),
            nums.note_durations.len() == project.notes.len(),
            tt_ids == rewrite_ids_spec(tt@, 0).1,
            (body@, counter as nat) == tracks_text(tt@, project@, nums@, k as nat, first_id()),
            x@ == template@,
            open@ == "<MidiTrack"@,
            close@ == "</MidiTrack>"@,
            find(x@, open@) == Some(ts as int),
            find_from(x@, close@, ts as int) == Some(te as int),
            end == te + 12,
            ts <= end <= x.len(),
            tt@ == x@.subrange(ts as int, end as int),
        decreases ntracks - k,
    {
        match track_xml_exec(&tt, tt_ids, project, nums, k, &mut counter) {
            None => {
                proof {
                    lemma_tracks_text_counter(tt@, project@, nums@, (k + 1) as nat, ntracks as nat, first_id());
                }
                return Err(SetError::IdOverflow);
            },
            Some(t) => {
                extend_all(&mut body, &t);
            },
        }
        k = k + 1;
    }
    assert(tt@ =~= x@.subrange(ts as int, end as int));
    assert(project@.tracks.len() == ntracks);
    if counter == usize::MAX {
        return Err(SetError::IdOverflow);
    }
    let mut head: Vec<char> = Vec::new();
    extend_range(&mut head, &x, 0, ts);
    assert(head@ =~= x@.take(ts as int));
    let bpm = to_chars(nums.bpm.as_str());
    let tempo = set_tempo_chars(&head, &bpm);
    let tag = to_chars("<NextPointeeId Value=\"");
    proof {
        reveal_strlit("<NextPointeeId Value=\"");
    }
    assert(tag@ =~= next_pointee_tag());
    let prefix = replace_value_after_exec(&tempo, &tag, &decimal_chars(counter + 1));
    let mut out: Vec<char> = Vec::new();
    extend_all(&mut out, &prefix);
    extend_all(&mut out, &body);
    extend_range(&mut out, &x, end, xlen);
    assert(x@.subrange(end as int, xlen as int) =~= x@.skip(end as int));
    Ok(from_chars(&out))
}

/// Why a Live set could not be written.
pub enum WriteError {
    /// The template is not gzip data holding text; the decoder's message.
    Template(String),
    /// The template does not fit the project.
    Layout(SetError),
}

/// Writes a Live set from the gzip-compressed template `template_gz` and a
/// project: the template's text, the Live set text made from it (see
/// `live_set_text`), encoded as UTF-8 and, when `compress`, gzip
/// compressed.
pub fn write(template_gz: &[u8], project: &McfProject, nums: &SetNumbers, compress: bool) -> (r: Result<Vec<u8>, WriteError>)
    requires
        nums.clip_lengths.len() == project.tracks.len(),
        nums.note_times.len() == project.notes.len(),
        nums.note_durations.len() == project.notes.len(),
    ensures
        match gunzip_text(template_gz@) {
            None => r is Err && r->Err_0 is Template,
            Some(t) => match live_set_text(t, project@, nums@) {
                Err(e) => r matches Err(WriteError::Layout(e2)) && e2 == e,
                Ok(out) => {
                    &&& !compress ==> (r matches Ok(b) && b@ == encode_utf8(out))
                    &&& compress ==> (r matches Ok(b) && b@ == gzip_bytes(encode_utf8(out)))
                    &&& compress ==> (r matches Ok(b) && gunzip_text(b@) == Some(out))
                },
            },
        },
{
    let text = match gunzip_to_string(template_gz) {
        Ok(t) => t,
        Err(msg) => {
            return Err(WriteError::Template(msg));
        },
    };
    let set = match assemble(text.as_str(), project, nums) {
        Ok(s) => s,
        Err(e) => {
            return Err(WriteError::Layout(e));
        },
    };
    let bytes = set.as_str().as_bytes();
    if compress {
        proof {
            vstd::utf8::encode_utf8_valid_utf8(set@);
            vstd::utf8::encode_utf8_decode_utf8(set@);
        }
        Ok(gzip(bytes).unwrap())
    } else {
        Ok(vstd::slice::slice_to_vec(bytes))
    }
}

/// Key tracks over more pitches hand out no fewer ids.
proof fn lemma_key_tracks_grow(nums: SetNumbersModel, notes: Seq<NoteModel>, idx: Seq<int>, q: nat, r: nat, c: nat)
    requires
        q <= r,
    ensures
        key_tracks(nums, notes, idx, r, c).1 >= key_tracks(nums, notes, idx, q, c).1,
    decreases r,
{
    if q < r {
        lemma_key_tracks_grow(nums, notes, idx, q, (r - 1) as nat, c);
    }
}

/// A copy of `x`.
fn copy_chars(x: &Vec<char>) -> (r: Vec<char>)
    ensures
        r@ == x@,
{
    let mut r: Vec<char> = Vec::new();
    extend_all(&mut r, x);
    assert(r@ =~= x@);
    r
}

fn chars_id_open() -> (v: Vec<char>)
    ensures
        v@ == id_open(),
{
    let v = to_chars("Id=\"");
    proof {
        reveal_strlit("Id=\"");
    }
    assert(v@ =~= id_open());
    v
}

} // verus!
