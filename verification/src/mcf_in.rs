//! Reading a project from MCF text.
//!
//! MCF is line based.  Blank lines and lines starting with `#` are skipped.
//! Lines before `tr:` hold `project:`, `bpm:`, `key:` and `scale:` entries;
//! `tr:` starts the track section and `nt:` the note section, whose lines
//! hold comma-separated fields.
use vstd::prelude::*;
use crate::numeral::{all_digits, parse_u8, parse_u8_exec};
use crate::pitch::{name_pitch, name_to_pitch, pitch_in_range, pitch_in_range_exec};
use crate::project::{McfProject, Note, NoteModel, ProjectModel, Track, TrackModel};
use crate::text::{
    chars_eq, find, find_from_exec, from_chars, lemma_find_from, lemma_find_from_skip, matches_at,
    matches_at_exec, remove_all, remove_all_exec, split_at_char, to_chars, trim, trim_range,
};

verus! {

/// A line without one trailing carriage return.
pub open spec fn strip_cr(l: Seq<char>) -> Seq<char> {
    if l.len() > 0 && l.last() == '\r' {
        l.drop_last()
    } else {
        l
    }
}

/// The lines of `s` (`str::lines`): the text split at each `\n`, a `\r`
/// right before a `\n` dropped, and no empty line after a final `\n`.
pub open spec fn text_lines(s: Seq<char>) -> Seq<Seq<char>>
    decreases s.len(),
{
    if s.len() == 0 {
        Seq::empty()
    } else {
        match find(s, seq!['\n']) {
            None => seq![s],
            Some(i) => {
                proof {
                    lemma_find_from(s, seq!['\n'], 0);
                }
                seq![strip_cr(s.take(i))] + text_lines(s.skip(i + 1))
            },
        }
    }
}

/// The section of the MCF text that a line belongs to.
pub enum Section {
    Meta,
    Tracks,
    Notes,
}

/// What has been read after some lines: the current section, the
/// project so far, and whether every note name so far stays within the
/// pitch arithmetic's range.
pub struct McfState {
    pub section: Section,
    pub project: ProjectModel,
    pub pitches_ok: bool,
}

/// The project before any line is read.
pub open spec fn initial_project() -> ProjectModel {
    ProjectModel {
        title: seq!['U', 'n', 'k', 'n', 'o', 'w', 'n'],
        bpm: Seq::empty(),
        scale_root: seq!['C'],
        scale_name: seq!['M', 'a', 'j', 'o', 'r'],
        tracks: Seq::empty(),
        notes: Seq::empty(),
    }
}

/// `s` starts with `p`.
pub open spec fn starts_with(s: Seq<char>, p: Seq<char>) -> bool {
    matches_at(s, p, 0)
}

/// `project:`
pub open spec fn project_key() -> Seq<char> {
    seq!['p', 'r', 'o', 'j', 'e', 'c', 't', ':']
}

/// `bpm:`
pub open spec fn bpm_key() -> Seq<char> {
    seq!['b', 'p', 'm', ':']
}

/// `key:`
pub open spec fn root_key() -> Seq<char> {
    seq!['k', 'e', 'y', ':']
}

/// `scale:`
pub open spec fn scale_key() -> Seq<char> {
    seq!['s', 'c', 'a', 'l', 'e', ':']
}

/// The value of a quoted meta entry: the line without the key and without
/// double quotes, trimmed.
pub open spec fn quoted_value(line: Seq<char>, key: Seq<char>) -> Seq<char> {
    trim(remove_all(remove_all(line, key), seq!['"']))
}

/// The trimmed comma-separated fields of a line.
pub open spec fn fields(line: Seq<char>) -> Seq<Seq<char>> {
    split_at_char(line, ',').map_values(|f: Seq<char>| trim(f))
}

/// A track name: the field without double quotes, and without a leading
/// number and `-` (as in `01 - Bass`), trimmed after that.
pub open spec fn track_name(field: Seq<char>) -> Seq<char> {
    let c = remove_all(field, seq!['"']);
    match find(c, seq!['-']) {
        Some(d) => if all_digits(c.take(d)) {
            trim(c.skip(d + 1))
        } else {
            c
        },
        None => c,
    }
}

/// The track of the fields of a track line.
pub open spec fn track_of(f: Seq<Seq<char>>) -> TrackModel {
    TrackModel { id: f[0], name: track_name(f[1]), track_type: f[2], volume: f[3], pan: f[4] }
}

/// The note of the fields of a note line.
pub open spec fn note_of(f: Seq<Seq<char>>) -> NoteModel {
    NoteModel {
        track_id: f[0],
        pitch_name: f[1],
        pitch: name_pitch(f[1]) as u8,
        velocity: match parse_u8(f[2]) {
            Some(v) => v as u8,
            None => 100,
        },
        start: f[3],
        duration: f[4],
    }
}

/// What one line does to the state: its trimmed text is applied.
pub open spec fn mcf_step(st: McfState, raw: Seq<char>) -> McfState {
    apply_line(st, trim(raw))
}

/// What a trimmed line does to the state.
pub open spec fn apply_line(st: McfState, line: Seq<char>) -> McfState {
    if line.len() == 0 || line[0] == '#' {
        st
    } else if line == seq!['t', 'r', ':'] {
        McfState { section: Section::Tracks, ..st }
    } else if line == seq!['n', 't', ':'] {
        McfState { section: Section::Notes, ..st }
    } else {
        let p = st.project;
        match st.section {
            Section::Meta => {
                if starts_with(line, project_key()) {
                    McfState { project: ProjectModel { title: quoted_value(line, project_key()), ..p }, ..st }
                } else if starts_with(line, bpm_key()) {
                    McfState { project: ProjectModel { bpm: trim(remove_all(line, bpm_key())), ..p }, ..st }
                } else if starts_with(line, root_key()) {
                    McfState { project: ProjectModel { scale_root: quoted_value(line, root_key()), ..p }, ..st }
                } else if starts_with(line, scale_key()) {
                    McfState { project: ProjectModel { scale_name: quoted_value(line, scale_key()), ..p }, ..st }
                } else {
                    st
                }
            },
            Section::Tracks => {
                let f = fields(line);
                if f.len() >= 5 {
                    McfState { project: ProjectModel { tracks: p.tracks.push(track_of(f)), ..p }, ..st }
                } else {
                    st
                }
            },
            Section::Notes => {
                let f = fields(line);
                if f.len() >= 5 {
                    McfState {
                        project: ProjectModel { notes: p.notes.push(note_of(f)), ..p },
                        pitches_ok: st.pitches_ok && pitch_in_range(f[1]),
                        ..st
                    }
                } else {
                    st
                }
            },
        }
    }
}

/// The state after reading `lines` in order.
pub open spec fn mcf_read_lines(lines: Seq<Seq<char>>) -> McfState
    decreases lines.len(),
{
    if lines.len() == 0 {
        McfState { section: Section::Meta, project: initial_project(), pitches_ok: true }
    } else {
        mcf_step(mcf_read_lines(lines.drop_last()), lines.last())
    }
}

/// The project that MCF text describes.
pub open spec fn mcf_project(text: Seq<char>) -> ProjectModel {
    mcf_read_lines(text_lines(text)).project
}

/// Every note name of the MCF text keeps the pitch arithmetic within
/// `i32`.
pub open spec fn mcf_pitches_in_range(text: Seq<char>) -> bool {
    mcf_read_lines(text_lines(text)).pitches_ok
}

/// A blank line or a comment line.
pub open spec fn is_skipped(raw: Seq<char>) -> bool {
    trim(raw).len() == 0 || trim(raw)[0] == '#'
}

/// Blank and comment lines change nothing: reading `a`, such a line, then
/// `b` gives what reading `a` then `b` gives.
pub proof fn law_skipped_lines(a: Seq<Seq<char>>, c: Seq<char>, b: Seq<Seq<char>>)
    requires
        is_skipped(c),
    ensures
        mcf_read_lines(a + seq![c] + b) == mcf_read_lines(a + b),
    decreases b.len(),
{
    if b.len() == 0 {
        assert((a + seq![c] + b).drop_last() =~= a);
        assert(a + b =~= a);
    } else {
        law_skipped_lines(a, c, b.drop_last());
        assert((a + seq![c] + b).drop_last() =~= a + seq![c] + b.drop_last());
        assert((a + b).drop_last() =~= a + b.drop_last());
    }
}

/// Every note read from MCF text has the pitch of its name.
pub proof fn law_mcf_note_pitches(lines: Seq<Seq<char>>)
    ensures
        forall|i: int| 0 <= i < mcf_read_lines(lines).project.notes.len() ==>
            (#[trigger] mcf_read_lines(lines).project.notes[i]).pitch as int
                == name_pitch(mcf_read_lines(lines).project.notes[i].pitch_name),
    decreases lines.len(),
{
    if lines.len() > 0 {
        law_mcf_note_pitches(lines.drop_last());
    }
}

/// A note line in the note section adds one note, after the others, made
/// from its fields: track id, note name, velocity, start and length.  The
/// velocity is the third field when it reads as a `u8`, whatever its
/// value, and 100 only when it does not.
pub proof fn law_mcf_note_line(lines: Seq<Seq<char>>, raw: Seq<char>)
    requires
        mcf_read_lines(lines).section is Notes,
        trim(raw).len() > 0,
        trim(raw)[0] != '#',
        trim(raw) != seq!['t', 'r', ':'],
        trim(raw) != seq!['n', 't', ':'],
        fields(trim(raw)).len() >= 5,
    ensures
        ({
            let f = fields(trim(raw));
            let before = mcf_read_lines(lines).project.notes;
            let after = mcf_read_lines(lines.push(raw)).project.notes;
            &&& after.len() == before.len() + 1
            &&& after.drop_last() == before
            &&& after.last().track_id == f[0]
            &&& after.last().pitch_name == f[1]
            &&& (parse_u8(f[2]) matches Some(v) ==> after.last().velocity == v)
            &&& (parse_u8(f[2]) is None ==> after.last().velocity == 100)
            &&& after.last().start == f[3]
            &&& after.last().duration == f[4]
        }),
{
    assert(lines.push(raw).drop_last() =~= lines);
    let before = mcf_read_lines(lines).project.notes;
    let after = mcf_read_lines(lines.push(raw)).project.notes;
    assert(after.drop_last() =~= before);
}

/// A track line in the track section adds one track, after the others,
/// made from its fields in order: id, name, type, volume and pan, and
/// leaves the notes as they were.
pub proof fn law_mcf_track_line(lines: Seq<Seq<char>>, raw: Seq<char>)
    requires
        mcf_read_lines(lines).section is Tracks,
        trim(raw).len() > 0,
        trim(raw)[0] != '#',
        trim(raw) != seq!['t', 'r', ':'],
        trim(raw) != seq!['n', 't', ':'],
        fields(trim(raw)).len() >= 5,
    ensures
        ({
            let f = fields(trim(raw));
            let before = mcf_read_lines(lines).project;
            let after = mcf_read_lines(lines.push(raw)).project;
            &&& after.tracks.len() == before.tracks.len() + 1
            &&& after.tracks.drop_last() == before.tracks
            &&& after.tracks.last().id == f[0]
            &&& after.tracks.last().name == track_name(f[1])
            &&& after.tracks.last().track_type == f[2]
            &&& after.tracks.last().volume == f[3]
            &&& after.tracks.last().pan == f[4]
            &&& after.notes == before.notes
        }),
{
    assert(lines.push(raw).drop_last() =~= lines);
    let before = mcf_read_lines(lines).project.tracks;
    let after = mcf_read_lines(lines.push(raw)).project.tracks;
    assert(after.drop_last() =~= before);
}

/// The texts held by a vector of character vectors.
pub open spec fn views(v: Seq<Vec<char>>) -> Seq<Seq<char>> {
    v.map_values(|x: Vec<char>| x@)
}

/// The trimmed comma-separated fields of `s`.
fn fields_exec(s: &Vec<char>) -> (r: Vec<Vec<char>>)
    ensures
        views(r@) == fields(s@),
{
    let mut comma: Vec<char> = Vec::new();
    comma.push(',');
    assert(comma@ =~= seq![',']);
    let mut out: Vec<Vec<char>> = Vec::new();
    let mut pos: usize = 0;
    let slen = s.len();
    assert(s@.skip(0) =~= s@);
    assert(views(out@) + split_at_char(s@, ',').map_values(|f: Seq<char>| trim(f)) =~= fields(s@));
    loop
        invariant
            pos <= slen,
            slen == s.len(),
            comma@ == seq![','],
            views(out@) + split_at_char(s@.skip(pos as int), ',').map_values(|f: Seq<char>| trim(f)) == fields(s@),
        decreases slen - pos,
    {
        let ghost t = s@.skip(pos as int);
        let ghost old_out = out@;
        let m = find_from_exec(s, &comma, pos);
        proof {
            lemma_find_from(s@, comma@, pos as int);
            lemma_find_from_skip(s@, comma@, pos as int);
        }
        match m {
            None => {
                let piece = trim_range(s, pos, slen);
                out.push(piece);
                assert(s@.subrange(pos as int, slen as int) =~= t);
                assert(split_at_char(t, ',') == seq![t]);
                assert(views(out@) =~= views(old_out) + seq![trim(t)]);
                assert(seq![t].map_values(|f: Seq<char>| trim(f)) =~= seq![trim(t)]);
                return out;
            },
            Some(k) => {
                assert(matches_at(s@, comma@, k as int));
                let piece = trim_range(s, pos, k);
                out.push(piece);
                let ghost a = t.take(k - pos);
                let ghost rest = split_at_char(t.skip(k - pos + 1), ',');
                assert(a =~= s@.subrange(pos as int, k as int));
                assert(t.skip(k - pos + 1) =~= s@.skip(k + 1));
                assert(split_at_char(t, ',') == seq![a] + rest);
                assert((seq![a] + rest).map_values(|f: Seq<char>| trim(f))
                    =~= seq![trim(a)] + rest.map_values(|f: Seq<char>| trim(f)));
                assert(views(out@) =~= views(old_out) + seq![trim(a)]);
                pos = k + 1;
            },
        }
    }
}

/// A track name as `track_name` says.
fn track_name_exec(f: &Vec<char>) -> (r: Vec<char>)
    ensures
        r@ == track_name(f@),
{
    let mut q: Vec<char> = Vec::new();
    q.push('"');
    let mut dash: Vec<char> = Vec::new();
    dash.push('-');
    assert(q@ =~= seq!['"']);
    assert(dash@ =~= seq!['-']);
    let c = remove_all_exec(f, &q);
    let m = find_from_exec(&c, &dash, 0);
    proof {
        lemma_find_from(c@, dash@, 0);
    }
    match m {
        None => c,
        Some(d) => {
            assert(matches_at(c@, dash@, d as int));
            let mut i: usize = 0;
            while i < d
                invariant
                    i <= d < c.len(),
                    c@ == remove_all(f@, seq!['"']),
                    find(c@, seq!['-']) == Some(d as int),
                    forall|k: int| 0 <= k < i ==> #[trigger] c@.take(d as int)[k] >= '0' && c@.take(d as int)[k] <= '9',
                decreases d - i,
            {
                if !('0' <= c[i] && c[i] <= '9') {
                    assert(!crate::numeral::is_digit(c@.take(d as int)[i as int]));
                    return c;
                }
                i = i + 1;
            }
            assert(all_digits(c@.take(d as int)));
            let r = trim_range(&c, d + 1, c.len());
            assert(c@.subrange(d + 1, c.len() as int) =~= c@.skip(d + 1));
            r
        },
    }
}

/// The literal texts that line reading compares against.
struct Keys {
    quote: Vec<char>,
    tr: Vec<char>,
    nt: Vec<char>,
    project: Vec<char>,
    bpm: Vec<char>,
    root: Vec<char>,
    scale: Vec<char>,
}

spec fn keys_ok(k: Keys) -> bool {
    &&& k.quote@ == seq!['"']
    &&& k.tr@ == seq!['t', 'r', ':']
    &&& k.nt@ == seq!['n', 't', ':']
    &&& k.project@ == project_key()
    &&& k.bpm@ == bpm_key()
    &&& k.root@ == root_key()
    &&& k.scale@ == scale_key()
}

fn make_keys() -> (k: Keys)
    ensures
        keys_ok(k),
{
    let mut quote: Vec<char> = Vec::new();
    quote.push('"');
    let k = Keys {
        quote,
        tr: to_chars("tr:"),
        nt: to_chars("nt:"),
        project: to_chars("project:"),
        bpm: to_chars("bpm:"),
        root: to_chars("key:"),
        scale: to_chars("scale:"),
    };
    proof {
        reveal_strlit("tr:");
        reveal_strlit("nt:");
        reveal_strlit("project:");
        reveal_strlit("bpm:");
        reveal_strlit("key:");
        reveal_strlit("scale:");
    }
    assert(k.quote@ =~= seq!['"']);
    assert(k.tr@ =~= seq!['t', 'r', ':']);
    assert(k.nt@ =~= seq!['n', 't', ':']);
    assert(k.project@ =~= project_key());
    assert(k.bpm@ =~= bpm_key());
    assert(k.root@ =~= root_key());
    assert(k.scale@ =~= scale_key());
    k
}

/// Applies one trimmed line to the project being read.
fn apply_line_exec(
    project: &mut McfProject,
    section: &mut Section,
    ok: &mut bool,
    line: &Vec<char>,
    keys: &Keys,
    Ghost(st): Ghost<McfState>,
)
    requires
        keys_ok(*keys),
        *old(section) == st.section,
        *old(ok) == st.pitches_ok,
        *old(ok) ==> old(project)@ == st.project,
    ensures
        *final(section) == apply_line(st, line@).section,
        *final(ok) == apply_line(st, line@).pitches_ok,
        *final(ok) ==> final(project)@ == apply_line(st, line@).project,
{
    let ghost nst = apply_line(st, line@);
    if line.len() == 0 || line[0] == '#' {
    } else if chars_eq(line, &keys.tr) {
        *section = Section::Tracks;
    } else if chars_eq(line, &keys.nt) {
        *section = Section::Notes;
    } else {
        match *section {
            Section::Meta => {
                if matches_at_exec(line, &keys.project, 0) {
                    let v = quoted_value_exec(line, &keys.project, &keys.quote);
                    project.title = from_chars(&v);
                } else if matches_at_exec(line, &keys.bpm, 0) {
                    let r = remove_all_exec(line, &keys.bpm);
                    let v = trim_range(&r, 0, r.len());
                    assert(r@.subrange(0, r.len() as int) =~= r@);
                    project.bpm = from_chars(&v);
                } else if matches_at_exec(line, &keys.root, 0) {
                    let v = quoted_value_exec(line, &keys.root, &keys.quote);
                    project.scale_root = from_chars(&v);
                } else if matches_at_exec(line, &keys.scale, 0) {
                    let v = quoted_value_exec(line, &keys.scale, &keys.quote);
                    project.scale_name = from_chars(&v);
                }
            },
            Section::Tracks => {
                let f = fields_exec(&line);
                if f.len() >= 5 {
                    assert(views(f@)[0] == f@[0]@);
                    let track = Track {
                        id: from_chars(&f[0]),
                        name: from_chars(&track_name_exec(&f[1])),
                        track_type: from_chars(&f[2]),
                        volume: from_chars(&f[3]),
                        pan: from_chars(&f[4]),
                    };
                    let ghost fv = views(f@);
                    assert(track@ == track_of(fv)) by {
                        assert(fv[0] == f@[0]@);
                        assert(fv[1] == f@[1]@);
                        assert(fv[2] == f@[2]@);
                        assert(fv[3] == f@[3]@);
                        assert(fv[4] == f@[4]@);
                    }
                    let ghost old_tracks = project.tracks@;
                    project.tracks.push(track);
                    assert(project.tracks@.map_values(|t: Track| t@)
                        =~= old_tracks.map_values(|t: Track| t@).push(track_of(fv)));
                }
            },
            Section::Notes => {
                let f = fields_exec(&line);
                if f.len() >= 5 {
                    let ghost fv = views(f@);
                    assert(fv[1] == f@[1]@);
                    assert(fv[2] == f@[2]@);
                    let in_range = pitch_in_range_exec(&f[1]);
                    let name = from_chars(&f[1]);
                    let pitch = if in_range {
                        name_to_pitch(name.as_str())
                    } else {
                        0
                    };
                    let velocity = match parse_u8_exec(&f[2]) {
                        Some(v) => v,
                        None => 100,
                    };
                    let note = Note {
                        track_id: from_chars(&f[0]),
                        pitch_name: name,
                        pitch,
                        velocity,
                        start: from_chars(&f[3]),
                        duration: from_chars(&f[4]),
                    };
                    assert(in_range ==> note@ == note_of(fv)) by {
                        assert(fv[0] == f@[0]@);
                        assert(fv[3] == f@[3]@);
                        assert(fv[4] == f@[4]@);
                    }
                    let ghost old_notes = project.notes@;
                    project.notes.push(note);
                    assert(project.notes@.map_values(|n: Note| n@)
                        =~= old_notes.map_values(|n: Note| n@).push(note@));
                    *ok = *ok && in_range;
                }
            },
        }
    }
    assert(*ok ==> project@ =~= nst.project);
}

/// Reads MCF text; the flag says whether every note name keeps the pitch
/// arithmetic in range, and the project is the described one when it does.
fn read_mcf(text: &str) -> (r: (McfProject, bool))
    ensures
        r.1 == mcf_pitches_in_range(text@),
        r.1 ==> r.0@ == mcf_project(text@),
{
    let s = to_chars(text);
    let slen = s.len();
    let mut nl: Vec<char> = Vec::new();
    nl.push('\n');
    assert(nl@ =~= seq!['\n']);
    let keys = make_keys();
    let mut project = McfProject {
        title: from_chars(&to_chars("Unknown")),
        bpm: String::new(),
        scale_root: from_chars(&to_chars("C")),
        scale_name: from_chars(&to_chars("Major")),
        tracks: Vec::new(),
        notes: Vec::new(),
    };
    proof {
        reveal_strlit("Unknown");
        reveal_strlit("C");
        reveal_strlit("Major");
    }
    assert(project.tracks@.map_values(|t: Track| t@) =~= Seq::<TrackModel>::empty());
    assert(project.notes@.map_values(|n: Note| n@) =~= Seq::<NoteModel>::empty());
    assert(project@.title =~= initial_project().title);
    assert(project@.scale_root =~= initial_project().scale_root);
    assert(project@.scale_name =~= initial_project().scale_name);
    assert(project@ == initial_project());
    let mut section = Section::Meta;
    let mut ok = true;
    let ghost mut done: Seq<Seq<char>> = Seq::empty();
    let mut pos: usize = 0;
    assert(s@.skip(0) =~= s@);
    while pos < slen
        invariant
            pos <= slen == s.len(),
            s@ == text@,
            nl@ == seq!['\n'],
            keys_ok(keys),
            done + text_lines(s@.skip(pos as int)) == text_lines(s@),
            section == mcf_read_lines(done).section,
            ok == mcf_read_lines(done).pitches_ok,
            ok ==> project@ == mcf_read_lines(done).project,
        decreases slen - pos,
    {
        let ghost t = s@.skip(pos as int);
        let ghost st = mcf_read_lines(done);
        let m = find_from_exec(&s, &nl, pos);
        proof {
            lemma_find_from(s@, nl@, pos as int);
            lemma_find_from_skip(s@, nl@, pos as int);
        }
        let (end, next) = match m {
            Some(k) => (k, k + 1),
            None => (slen, slen),
        };
        proof {
            if let Some(k) = m {
                assert(matches_at(s@, nl@, k as int));
            }
        }
        let mut line_end = end;
        if m.is_some() && end > pos && s[end - 1] == '\r' {
            line_end = end - 1;
        }
        let ghost raw = match m {
            Some(k) => strip_cr(t.take(k - pos)),
            None => t,
        };
        proof {
            assert(s@.subrange(pos as int, end as int) =~= t.take(end - pos));
            if m is None {
                assert(t.take(end - pos) =~= t);
            }
            assert(raw =~= s@.subrange(pos as int, line_end as int));
            assert(text_lines(t) == seq![raw] + text_lines(s@.skip(next as int))) by {
                if let Some(k) = m {
                    assert(t.skip(k - pos + 1) =~= s@.skip(next as int));
                } else {
                    assert(s@.skip(next as int) =~= Seq::<char>::empty());
                }
            }
        }
        let line = trim_range(&s, pos, line_end);
        let ghost new_done = done.push(raw);
        assert(new_done.drop_last() =~= done);
        apply_line_exec(&mut project, &mut section, &mut ok, &line, &keys, Ghost(st));
        proof {
            done = new_done;
        }
        assert(done + text_lines(s@.skip(next as int)) =~= text_lines(s@));
        pos = next;
    }
    assert(s@.skip(pos as int) =~= Seq::<char>::empty());
    assert(done =~= text_lines(s@));
    (project, ok)
}

/// The value of a quoted meta entry of `line` with key `key`.
fn quoted_value_exec(line: &Vec<char>, key: &Vec<char>, q: &Vec<char>) -> (r: Vec<char>)
    requires
        key@.len() > 0,
        q@ == seq!['"'],
    ensures
        r@ == quoted_value(line@, key@),
{
    let a = remove_all_exec(line, key);
    let b = remove_all_exec(&a, q);
    assert(b@.subrange(0, b.len() as int) =~= b@);
    trim_range(&b, 0, b.len())
}

/// Reads the project that MCF text describes.  Every note name must keep
/// the pitch arithmetic within `i32` (see `pitches_in_range`).
pub fn parse(text: &str) -> (project: McfProject)
    requires
        mcf_pitches_in_range(text@),
    ensures
        project@ == mcf_project(text@),
{
    let (project, _) = read_mcf(text);
    project
}

/// Whether every note name of MCF text keeps the pitch arithmetic within
/// `i32`, as `parse` needs.
pub fn pitches_in_range(text: &str) -> (ok: bool)
    ensures
        ok == mcf_pitches_in_range(text@),
{
    let (_, ok) = read_mcf(text);
    ok
}

} // verus!
