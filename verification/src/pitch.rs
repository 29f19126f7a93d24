//! MIDI pitches and their note names, such as `C#4` or `A-1`.
use vstd::prelude::*;
use crate::numeral::{is_digit, lemma_decimal_reads_back, parse_i32, parse_i32_exec};
use crate::text::{decimal, decimal_chars, from_chars, to_chars, extend_all};

verus! {

/// Whether `c` has the Unicode Alphabetic property (`char::is_alphabetic`).
pub uninterp spec fn alphabetic(c: char) -> bool;

/// `char::is_alphabetic`.  Its result is named `alphabetic(c)`; among ASCII
/// characters exactly the letters `a..=z` and `A..=Z` have the property.
#[verifier::external_body]
fn is_alphabetic(c: char) -> (b: bool)
    ensures
        b == alphabetic(c),
        (c as u32) < 128 ==> (b <==> is_ascii_letter(c)),
{
    c.is_alphabetic()
}

/// The note name of the pitch class `k` (`0` is `C`, `11` is `B`).
pub open spec fn note_letters(k: nat) -> Seq<char> {
    if k == 0 { seq!['C'] }
    else if k == 1 { seq!['C', '#'] }
    else if k == 2 { seq!['D'] }
    else if k == 3 { seq!['D', '#'] }
    else if k == 4 { seq!['E'] }
    else if k == 5 { seq!['F'] }
    else if k == 6 { seq!['F', '#'] }
    else if k == 7 { seq!['G'] }
    else if k == 8 { seq!['G', '#'] }
    else if k == 9 { seq!['A'] }
    else if k == 10 { seq!['A', '#'] }
    else { seq!['B'] }
}

/// The decimal numeral of `i`, with a leading `-` when it is negative.
pub open spec fn signed_decimal(i: int) -> Seq<char> {
    if i < 0 {
        seq!['-'] + decimal((-i) as nat)
    } else {
        decimal(i as nat)
    }
}

/// The name of the MIDI pitch `p`: its note name and its octave, where
/// octave `-1` holds pitches `0..12`.
pub open spec fn pitch_name(p: nat) -> Seq<char> {
    note_letters(p % 12) + signed_decimal(p as int / 12 - 1)
}

/// The name of a MIDI pitch, such as `C4` for 60 or `A#-1` for 10.
pub fn pitch_to_name(pitch: u8) -> (name: String)
    ensures
        name@ == pitch_name(pitch as nat),
{
    let k = pitch % 12;
    let mut v: Vec<char> = Vec::new();
    if k == 0 { v.push('C'); }
    else if k == 1 { v.push('C'); v.push('#'); }
    else if k == 2 { v.push('D'); }
    else if k == 3 { v.push('D'); v.push('#'); }
    else if k == 4 { v.push('E'); }
    else if k == 5 { v.push('F'); }
    else if k == 6 { v.push('F'); v.push('#'); }
    else if k == 7 { v.push('G'); }
    else if k == 8 { v.push('G'); v.push('#'); }
    else if k == 9 { v.push('A'); }
    else if k == 10 { v.push('A'); v.push('#'); }
    else { v.push('B'); }
    assert(v@ =~= note_letters(k as nat));
    let octave = pitch / 12;
    if octave == 0 {
        v.push('-');
        v.push('1');
        assert(decimal(1) =~= seq!['1']);
    } else {
        let d = decimal_chars((octave - 1) as usize);
        extend_all(&mut v, &d);
    }
    assert(v@ =~= pitch_name(pitch as nat));
    from_chars(&v)
}

/// An ASCII letter.
pub open spec fn is_ascii_letter(c: char) -> bool {
    ('a' <= c && c <= 'z') || ('A' <= c && c <= 'Z')
}

/// A letter: among ASCII characters the ASCII letters, elsewhere a
/// character with the Unicode Alphabetic property.
pub open spec fn is_letter(c: char) -> bool {
    if (c as u32) < 128 {
        is_ascii_letter(c)
    } else {
        alphabetic(c)
    }
}

/// A character that goes into the note part of a name: a letter or `#`.
pub open spec fn is_note_char(c: char) -> bool {
    is_letter(c) || c == '#'
}

/// A character that goes into the octave part of a name: a digit or `-`
/// that is not a note character.
pub open spec fn is_octave_char(c: char) -> bool {
    !is_note_char(c) && (is_digit(c) || c == '-')
}

/// The letters and `#` of a name, in order.
pub open spec fn note_part(name: Seq<char>) -> Seq<char> {
    name.filter(|c: char| is_note_char(c))
}

/// The digits and `-` of a name, in order.
pub open spec fn octave_part(name: Seq<char>) -> Seq<char> {
    name.filter(|c: char| is_octave_char(c))
}

/// The pitch class of a note name; 0 for an unknown one.
pub open spec fn note_value(s: Seq<char>) -> int {
    if s == seq!['C'] { 0 }
    else if s == seq!['C', '#'] { 1 }
    else if s == seq!['D'] { 2 }
    else if s == seq!['D', '#'] { 3 }
    else if s == seq!['E'] { 4 }
    else if s == seq!['F'] { 5 }
    else if s == seq!['F', '#'] { 6 }
    else if s == seq!['G'] { 7 }
    else if s == seq!['G', '#'] { 8 }
    else if s == seq!['A'] { 9 }
    else if s == seq!['A', '#'] { 10 }
    else if s == seq!['B'] { 11 }
    else { 0 }
}

/// The octave of a name: its octave part read as an `i32`, or 3.
pub open spec fn octave_number(name: Seq<char>) -> int {
    match parse_i32(octave_part(name)) {
        Some(o) => o,
        None => 3,
    }
}

/// The first pitch of the name's octave, where octave `-2` starts at 0.
pub open spec fn octave_base(name: Seq<char>) -> int {
    (octave_number(name) + 2) * 12
}

/// The pitch arithmetic of the name stays within `i32`.
pub open spec fn pitch_in_range(name: Seq<char>) -> bool {
    &&& -2147483648 <= octave_base(name)
    &&& octave_base(name) + note_value(note_part(name)) <= 2147483647
}

/// The MIDI pitch of a note name: the octave base plus the pitch class,
/// held to `0..=255`.
pub open spec fn name_pitch(name: Seq<char>) -> int {
    let p = octave_base(name) + note_value(note_part(name));
    if p < 0 {
        0
    } else if p > 255 {
        255
    } else {
        p
    }
}

/// The pitch class of the note part `v`.
fn note_value_exec(v: &Vec<char>) -> (k: i32)
    ensures
        k == note_value(v@),
{
    if v.len() == 1 {
        let c = v[0];
        assert(v@ =~= seq![c]);
        if c == 'C' { 0 }
        else if c == 'D' { 2 }
        else if c == 'E' { 4 }
        else if c == 'F' { 5 }
        else if c == 'G' { 7 }
        else if c == 'A' { 9 }
        else if c == 'B' { 11 }
        else { 0 }
    } else if v.len() == 2 && v[1] == '#' {
        let c = v[0];
        assert(v@ =~= seq![c, '#']);
        if c == 'C' { 1 }
        else if c == 'D' { 3 }
        else if c == 'F' { 6 }
        else if c == 'G' { 8 }
        else if c == 'A' { 10 }
        else { 0 }
    } else {
        assert(v@.len() != 1);
        assert(v@.len() != 2 || v@[1] != '#');
        0
    }
}

/// The MIDI pitch of a note name such as `C3` or `F#-1`: the letters and
/// `#` give the pitch class (an unknown one counts as `C`), the digits and
/// `-` the octave (3 when they do not read as a number), and octave `-2`
/// starts at pitch 0.  The pitch is held to `0..=255`.
pub fn name_to_pitch(name: &str) -> (pitch: u8)
    requires
        pitch_in_range(name@),
    ensures
        pitch as int == name_pitch(name@),
{
    let s = to_chars(name);
    let (note, octave) = name_parts(&s);
    let k = note_value_exec(&note);
    let o: i32 = match parse_i32_exec(&octave) {
        Some(o) => o,
        None => 3,
    };
    let p: i32 = (o + 2) * 12 + k;
    if p < 0 {
        0
    } else if p > 255 {
        255
    } else {
        p as u8
    }
}

/// Whether the pitch arithmetic of the name `s` stays within `i32`.
pub fn pitch_in_range_exec(s: &Vec<char>) -> (b: bool)
    ensures
        b == pitch_in_range(s@),
{
    let (note, octave) = name_parts(s);
    let k = note_value_exec(&note);
    let o: i32 = match parse_i32_exec(&octave) {
        Some(o) => o,
        None => 3,
    };
    let base: i64 = (o as i64 + 2) * 12;
    -2147483648 <= base && base + (k as i64) <= 2147483647
}

/// The note part and the octave part of a name.
fn name_parts(s: &Vec<char>) -> (r: (Vec<char>, Vec<char>))
    ensures
        r.0@ == note_part(s@),
        r.1@ == octave_part(s@),
{
    let mut note: Vec<char> = Vec::new();
    let mut octave: Vec<char> = Vec::new();
    let ghost fnote = |c: char| is_note_char(c);
    let ghost foct = |c: char| is_octave_char(c);
    let mut i: usize = 0;
    while i < s.len()
        invariant
            i <= s.len(),
            fnote == (|c: char| is_note_char(c)),
            foct == (|c: char| is_octave_char(c)),
            note@ == s@.take(i as int).filter(fnote),
            octave@ == s@.take(i as int).filter(foct),
        decreases s.len() - i,
    {
        let c = s[i];
        proof {
            assert(s@.take(i + 1).drop_last() =~= s@.take(i as int));
            assert(s@.take(i + 1).last() == c);
        }
        let alpha = is_alphabetic(c);
        let ghost t = s@.take(i + 1);
        proof {
            reveal_with_fuel(Seq::<_>::filter, 1);
            assert(t.filter(fnote) == if fnote(c) { t.drop_last().filter(fnote).push(c) } else { t.drop_last().filter(fnote) });
            assert(t.filter(foct) == if foct(c) { t.drop_last().filter(foct).push(c) } else { t.drop_last().filter(foct) });
        }
        if alpha || c == '#' {
            note.push(c);
        } else if ('0' <= c && c <= '9') || c == '-' {
            octave.push(c);
        }
        i = i + 1;
    }
    assert(s@.take(s.len() as int) =~= s@);
    (note, octave)
}

/// A sequence whose every element passes `f` is its own filter.
proof fn lemma_filter_all(s: Seq<char>, f: spec_fn(char) -> bool)
    requires
        forall|i: int| 0 <= i < s.len() ==> f(#[trigger] s[i]),
    ensures
        s.filter(f) == s,
    decreases s.len(),
{
    reveal_with_fuel(Seq::<_>::filter, 1);
    if s.len() > 0 {
        lemma_filter_all(s.drop_last(), f);
        assert(s.drop_last().push(s.last()) =~= s);
    }
}

/// A sequence whose no element passes `f` filters to nothing.
proof fn lemma_filter_none(s: Seq<char>, f: spec_fn(char) -> bool)
    requires
        forall|i: int| 0 <= i < s.len() ==> !f(#[trigger] s[i]),
    ensures
        s.filter(f) == Seq::<char>::empty(),
    decreases s.len(),
{
    reveal_with_fuel(Seq::<_>::filter, 1);
    if s.len() > 0 {
        lemma_filter_none(s.drop_last(), f);
    }
}

/// The octave numeral of a pitch name reads back as its octave.
proof fn lemma_octave_numeral(o: int)
    requires
        -1 <= o <= 20,
    ensures
        parse_i32(signed_decimal(o)) == Some(o),
        forall|i: int| 0 <= i < signed_decimal(o).len() ==> is_octave_char(#[trigger] signed_decimal(o)[i]),
{
    let d = signed_decimal(o);
    if o < 0 {
        assert(decimal(1) =~= seq!['1']);
        assert(d =~= seq!['-', '1']);
        assert(d.skip(1) =~= seq!['1']);
        lemma_decimal_reads_back(1);
    } else {
        lemma_decimal_reads_back(o as nat);
        assert forall|i: int| 0 <= i < d.len() implies is_octave_char(#[trigger] d[i]) by {
            assert(is_digit(d[i]));
        }
    }
}

/// The note name of a pitch class is made of note characters and reads
/// back as that class.
proof fn lemma_note_letters(k: nat)
    requires
        k < 12,
    ensures
        note_value(note_letters(k)) == k,
        forall|i: int| 0 <= i < note_letters(k).len() ==>
            is_note_char(#[trigger] note_letters(k)[i]) && !is_octave_char(note_letters(k)[i]),
{
    let l = note_letters(k);
    assert(l.len() == 1 || l.len() == 2);
    assert(is_note_char(l[0]));
    if l.len() == 2 {
        assert(l[1] == '#');
    }
}

/// The note part of a pitch's name is the name of its pitch class, and
/// its octave part reads as its octave.
proof fn lemma_name_parts(p: u8)
    ensures
        note_part(pitch_name(p as nat)) == note_letters((p % 12) as nat),
        octave_part(pitch_name(p as nat)) == signed_decimal(p as int / 12 - 1),
        octave_number(pitch_name(p as nat)) == p as int / 12 - 1,
        note_value(note_letters((p % 12) as nat)) == p % 12,
{
    let k = (p % 12) as nat;
    let o = p as int / 12 - 1;
    let l = note_letters(k);
    let d = signed_decimal(o);
    let name = pitch_name(p as nat);
    let fnote = |c: char| is_note_char(c);
    let foct = |c: char| is_octave_char(c);
    assert(name == l + d);
    Seq::filter_distributes_over_add(l, d, fnote);
    Seq::filter_distributes_over_add(l, d, foct);
    lemma_octave_numeral(o);
    lemma_note_letters(k);
    assert forall|i: int| 0 <= i < l.len() implies #[trigger] fnote(l[i]) && !foct(l[i]) by {
        assert(is_note_char(l[i]));
    }
    assert forall|i: int| 0 <= i < d.len() implies !#[trigger] fnote(d[i]) by {
        assert(is_octave_char(d[i]));
    }
    lemma_filter_all(l, fnote);
    lemma_filter_none(l, foct);
    lemma_filter_none(d, fnote);
    lemma_filter_all(d, foct);
    assert(note_part(name) =~= l);
    assert(octave_part(name) =~= d);
}

/// Naming a pitch and reading the name back gives the pitch one octave
/// up, held to 255: names count octave `-1` from pitch 0, reading counts
/// octave `-2` from pitch 0.
pub proof fn law_name_read_back(p: u8)
    ensures
        pitch_in_range(pitch_name(p as nat)),
        name_pitch(pitch_name(p as nat)) == if p + 12 > 255 { 255 } else { p + 12 },
{
    lemma_name_parts(p);
}

/// Distinct pitches have distinct names.
pub proof fn law_distinct_names(p1: u8, p2: u8)
    requires
        p1 != p2,
    ensures
        pitch_name(p1 as nat) != pitch_name(p2 as nat),
{
    lemma_name_parts(p1);
    lemma_name_parts(p2);
}

/// A name's pitch depends only on its note part and its octave part: the
/// other characters are ignored, and letters and digits may come in any
/// interleaving.
pub proof fn law_name_parts_decide(n1: Seq<char>, n2: Seq<char>)
    requires
        note_part(n1) == note_part(n2),
        octave_part(n1) == octave_part(n2),
    ensures
        pitch_in_range(n1) == pitch_in_range(n2),
        name_pitch(n1) == name_pitch(n2),
{
}

/// The names of the twelve pitch classes, from `C` up.
pub open spec fn chromatic_names() -> Seq<Seq<char>> {
    seq![
        seq!['C'], seq!['C', '#'], seq!['D'], seq!['D', '#'], seq!['E'], seq!['F'],
        seq!['F', '#'], seq!['G'], seq!['G', '#'], seq!['A'], seq!['A', '#'], seq!['B'],
    ]
}

/// A pitch is named by its place in the chromatic scale from `C` and its
/// octave: pitch 60 is `C4`, 64 `E4`, 70 `A#4`.
pub proof fn law_pitch_name_chromatic(p: u8)
    ensures
        pitch_name(p as nat) == chromatic_names()[(p % 12) as int] + signed_decimal(p as int / 12 - 1),
{
    let k = p % 12;
    assert(note_letters(k as nat) =~= chromatic_names()[k as int]);
}

/// A name made of one of the letters `C D E F G A B`, an optional `#`
/// (not after `E` or `B`) and an octave `o` reads as the pitch
/// `(o + 2) * 12` plus the letter's semitones above `C` (0, 2, 4, 5, 7, 9,
/// 11) and one for the `#`, held to 255: `E3` is 64.
pub proof fn law_name_pitch_letters(l: char, sharp: bool, o: nat)
    requires
        l == 'C' || l == 'D' || l == 'E' || l == 'F' || l == 'G' || l == 'A' || l == 'B',
        sharp ==> l != 'E' && l != 'B',
        o <= 2147483647,
    ensures
        ({
            let name = (if sharp { seq![l, '#'] } else { seq![l] }) + decimal(o);
            let semitones: int = (if l == 'C' { 0int } else if l == 'D' { 2int } else if l == 'E' { 4int }
                else if l == 'F' { 5int } else if l == 'G' { 7int } else if l == 'A' { 9int } else { 11int })
                + (if sharp { 1int } else { 0int });
            let v = (o + 2) * 12 + semitones;
            name_pitch(name) == if v > 255 { 255 } else { v }
        }),
{
    let head = if sharp { seq![l, '#'] } else { seq![l] };
    let d = decimal(o);
    let name = head + d;
    let fnote = |c: char| is_note_char(c);
    let foct = |c: char| is_octave_char(c);
    Seq::filter_distributes_over_add(head, d, fnote);
    Seq::filter_distributes_over_add(head, d, foct);
    lemma_decimal_reads_back(o);
    assert forall|i: int| 0 <= i < head.len() implies #[trigger] fnote(head[i]) && !foct(head[i]) by {
        assert(is_note_char(head[i]));
    }
    assert forall|i: int| 0 <= i < d.len() implies !#[trigger] fnote(d[i]) && foct(d[i]) by {
        assert(is_digit(d[i]));
    }
    lemma_filter_all(head, fnote);
    lemma_filter_none(head, foct);
    lemma_filter_none(d, fnote);
    lemma_filter_all(d, foct);
    assert(note_part(name) =~= head);
    assert(octave_part(name) =~= d);
    assert(parse_i32(d) == Some(o as int));
    assert(octave_number(name) == o);
    let semitones: int = (if l == 'C' { 0int } else if l == 'D' { 2int } else if l == 'E' { 4int }
        else if l == 'F' { 5int } else if l == 'G' { 7int } else if l == 'A' { 9int } else { 11int })
        + (if sharp { 1int } else { 0int });
    assert(head[0] == l && head.len() == if sharp { 2int } else { 1int });
    assert(sharp ==> head[1] == '#');
    assert(seq!['C'][0] == 'C' && seq!['D'][0] == 'D' && seq!['E'][0] == 'E' && seq!['F'][0] == 'F');
    assert(seq!['G'][0] == 'G' && seq!['A'][0] == 'A' && seq!['B'][0] == 'B');
    assert(seq!['C', '#'][0] == 'C' && seq!['D', '#'][0] == 'D' && seq!['F', '#'][0] == 'F');
    assert(seq!['G', '#'][0] == 'G' && seq!['A', '#'][0] == 'A');
    if sharp {
        assert(head =~= seq![l, '#']);
    } else {
        assert(head =~= seq![l]);
    }
    assert(note_value(head) == semitones);
}

} // verus!
