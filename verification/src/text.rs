//! Character-level text helpers: the model of text as a sequence of
//! characters, substring search, decimal numerals and conversions between
//! `&str`, `String` and `Vec<char>`.
use vstd::prelude::*;


verus! {

/// `p` occurs in `s` starting at character position `i`.
pub open spec fn matches_at(s: Seq<char>, p: Seq<char>, i: int) -> bool {
    &&& 0 <= i
    &&& i + p.len() <= s.len()
    &&& s.subrange(i, i + p.len()) == p
}

/// The first position at or after `from` where `p` occurs in `s`
/// (what `str::find` reports, counted in characters).
pub open spec fn find_from(s: Seq<char>, p: Seq<char>, from: int) -> Option<int>
    decreases s.len() + 1 - from,
{
    if from < 0 || from + p.len() > s.len() {
        None
    } else if matches_at(s, p, from) {
        Some(from)
    } else {
        find_from(s, p, from + 1)
    }
}

/// The first position where `p` occurs in `s`.
pub open spec fn find(s: Seq<char>, p: Seq<char>) -> Option<int> {
    find_from(s, p, 0)
}

/// What `find_from` reports: a real occurrence, and none before it.
pub proof fn lemma_find_from(s: Seq<char>, p: Seq<char>, from: int)
    requires
        0 <= from,
    ensures
        find_from(s, p, from) matches Some(k) ==> {
            &&& from <= k
            &&& matches_at(s, p, k)
            &&& forall|j: int| from <= j < k ==> !matches_at(s, p, j)
        },
        find_from(s, p, from) is None ==> forall|j: int| from <= j ==> !matches_at(s, p, j),
    decreases s.len() + 1 - from,
{
    if from + p.len() > s.len() {
    } else if matches_at(s, p, from) {
    } else {
        lemma_find_from(s, p, from + 1);
        assert forall|j: int| from <= j && (find_from(s, p, from) is None || j < find_from(s, p, from)->0)
            implies !matches_at(s, p, j) by {
            if j == from {
            }
        }
    }
}

/// `find_from` is determined by the occurrences: the first one at or after `from`.
pub proof fn lemma_find_from_unique(s: Seq<char>, p: Seq<char>, from: int, k: int)
    requires
        0 <= from <= k,
        matches_at(s, p, k),
        forall|j: int| from <= j < k ==> !matches_at(s, p, j),
    ensures
        find_from(s, p, from) == Some(k),
{
    lemma_find_from(s, p, from);
    if find_from(s, p, from) is None {
        assert(!matches_at(s, p, k));
    }
}

/// Searching a prefix of `s` finds what searching `s` finds, when that lies
/// wholly inside the prefix, and nothing otherwise.
pub proof fn lemma_find_from_take(s: Seq<char>, p: Seq<char>, from: int, k: int)
    requires
        0 <= from,
        0 <= k <= s.len(),
    ensures
        find_from(s.take(k), p, from) == (match find_from(s, p, from) {
            Some(e) => if e + p.len() <= k { Some(e) } else { None },
            None => None,
        }),
    decreases s.len() + 1 - from,
{
    let t = s.take(k);
    if from + p.len() > s.len() {
    } else if matches_at(s, p, from) {
        if from + p.len() <= k {
            assert(t.subrange(from, from + p.len()) =~= s.subrange(from, from + p.len()));
        } else {
            lemma_find_from(t, p, from);
        }
    } else {
        if from + p.len() <= k {
            assert(t.subrange(from, from + p.len()) =~= s.subrange(from, from + p.len()));
        }
        lemma_find_from_take(s, p, from + 1, k);
    }
}

/// The decimal numeral of `n`, as `{}` formats an unsigned integer.
pub open spec fn decimal(n: nat) -> Seq<char>
    decreases n,
{
    if n < 10 {
        seq![digit_char(n)]
    } else {
        decimal(n / 10).push(digit_char(n % 10))
    }
}

/// The character of the decimal digit `d` (for `d < 10`).
pub open spec fn digit_char(d: nat) -> char {
    if d == 0 { '0' } else if d == 1 { '1' } else if d == 2 { '2' } else if d == 3 { '3' }
    else if d == 4 { '4' } else if d == 5 { '5' } else if d == 6 { '6' } else if d == 7 { '7' }
    else if d == 8 { '8' } else { '9' }
}

/// The characters of `s` in order.
pub fn to_chars(s: &str) -> (v: Vec<char>)
    ensures
        v@ == s@,
{
    let mut v: Vec<char> = Vec::new();
    broadcast use vstd::string::group_string_axioms;
    for c in it: s.chars()
        invariant
            v@ == it.seq().take(it.index() as int),
            it.seq() == s@,
    {
        v.push(c);
    }
    assert(v@ == s@.take(s@.len() as int));
    v
}


/// Whether `p` occurs in `s` at position `i`.
pub fn matches_at_exec(s: &Vec<char>, p: &Vec<char>, i: usize) -> (b: bool)
    ensures
        b == matches_at(s@, p@, i as int),
{
    if i > s.len() || p.len() > s.len() - i {
        return false;
    }
    let mut j: usize = 0;
    while j < p.len()
        invariant
            i + p.len() <= s.len(),
            j <= p.len(),
            forall|k: int| 0 <= k < j ==> s@[i + k] == p@[k],
        decreases p.len() - j,
    {
        if s[i + j] != p[j] {
            assert(s@.subrange(i as int, i + p.len())[j as int] != p@[j as int]);
            return false;
        }
        j = j + 1;
    }
    assert(s@.subrange(i as int, i + p.len()) =~= p@);
    true
}

/// The first position at or after `from` where `p` occurs in `s`.
pub fn find_from_exec(s: &Vec<char>, p: &Vec<char>, from: usize) -> (r: Option<usize>)
    ensures
        match r {
            Some(k) => find_from(s@, p@, from as int) == Some(k as int),
            None => find_from(s@, p@, from as int) is None,
        },
{
    let mut i = from;
    while i <= s.len() && p.len() <= s.len() - i
        invariant
            from <= i,
            find_from(s@, p@, from as int) == find_from(s@, p@, i as int),
        decreases s.len() + 1 - i,
    {
        if matches_at_exec(s, p, i) {
            return Some(i);
        }
        assert(p.len() > 0) by {
            if p.len() == 0 {
                assert(s@.subrange(i as int, i as int) =~= p@);
            }
        }
        i = i + 1;
    }
    None
}

/// Appends `c` to the text `s` (`String::push`).
#[verifier::external_body]
pub fn push_char(s: &mut String, c: char)
    ensures
        final(s)@ == old(s)@.push(c),
{
    s.push(c);
}

/// The text made of the characters of `v`.
pub fn from_chars(v: &Vec<char>) -> (s: String)
    ensures
        s@ == v@,
{
    let mut s = String::new();
    let mut i: usize = 0;
    while i < v.len()
        invariant
            i <= v.len(),
            s@ == v@.take(i as int),
        decreases v.len() - i,
    {
        push_char(&mut s, v[i]);
        assert(v@.take(i + 1) =~= v@.take(i as int).push(v@[i as int]));
        i = i + 1;
    }
    assert(v@.take(v.len() as int) =~= v@);
    s
}

/// Appends the characters `src[lo..hi]` to `out`.
pub fn extend_range(out: &mut Vec<char>, src: &Vec<char>, lo: usize, hi: usize)
    requires
        lo <= hi <= src.len(),
    ensures
        final(out)@ == old(out)@ + src@.subrange(lo as int, hi as int),
{
    let mut i = lo;
    while i < hi
        invariant
            lo <= i <= hi <= src.len(),
            out@ == old(out)@ + src@.subrange(lo as int, i as int),
        decreases hi - i,
    {
        out.push(src[i]);
        assert(src@.subrange(lo as int, i + 1) =~= src@.subrange(lo as int, i as int).push(src@[i as int]));
        i = i + 1;
    }
}

/// Appends all of `src` to `out`.
pub fn extend_all(out: &mut Vec<char>, src: &Vec<char>)
    ensures
        final(out)@ == old(out)@ + src@,
{
    extend_range(out, src, 0, src.len());
    assert(src@.subrange(0, src.len() as int) =~= src@);
}

/// The decimal numeral of `n`.
pub fn decimal_chars(n: usize) -> (v: Vec<char>)
    ensures
        v@ == decimal(n as nat),
    decreases n,
{
    if n < 10 {
        let mut v = Vec::new();
        v.push(digit(n));
        assert(v@ =~= seq![digit_char(n as nat)]);
        v
    } else {
        let mut v = decimal_chars(n / 10);
        v.push(digit(n % 10));
        v
    }
}

/// The character of the decimal digit `d`.
pub fn digit(d: usize) -> (c: char)
    requires
        d < 10,
    ensures
        c == digit_char(d as nat),
{
    if d == 0 { '0' } else if d == 1 { '1' } else if d == 2 { '2' } else if d == 3 { '3' }
    else if d == 4 { '4' } else if d == 5 { '5' } else if d == 6 { '6' } else if d == 7 { '7' }
    else if d == 8 { '8' } else { '9' }
}

/// A character with the Unicode White_Space property
/// (`char::is_whitespace`).
pub open spec fn is_whitespace(c: char) -> bool {
    let u = c as u32;
    ||| 0x09 <= u <= 0x0d
    ||| u == 0x20
    ||| u == 0x85
    ||| u == 0xa0
    ||| u == 0x1680
    ||| 0x2000 <= u <= 0x200a
    ||| u == 0x2028
    ||| u == 0x2029
    ||| u == 0x202f
    ||| u == 0x205f
    ||| u == 0x3000
}

/// `s` without its leading whitespace.
pub open spec fn trim_start(s: Seq<char>) -> Seq<char>
    decreases s.len(),
{
    if s.len() > 0 && is_whitespace(s[0]) {
        trim_start(s.skip(1))
    } else {
        s
    }
}

/// `s` without its trailing whitespace.
pub open spec fn trim_end(s: Seq<char>) -> Seq<char>
    decreases s.len(),
{
    if s.len() > 0 && is_whitespace(s.last()) {
        trim_end(s.drop_last())
    } else {
        s
    }
}

/// `s` without leading and trailing whitespace (`str::trim`).
pub open spec fn trim(s: Seq<char>) -> Seq<char> {
    trim_end(trim_start(s))
}

/// `s` with every occurrence of the non-empty `p` removed, scanning from
/// the left (`str::replace(p, "")`).
pub open spec fn remove_all(s: Seq<char>, p: Seq<char>) -> Seq<char>
    decreases s.len(),
{
    if p.len() == 0 {
        s
    } else {
        match find(s, p) {
            None => s,
            Some(i) => {
                proof {
                    lemma_find_from(s, p, 0);
                }
                s.take(i) + remove_all(s.skip(i + p.len()), p)
            },
        }
    }
}

/// The pieces of `s` between the occurrences of `c` (`str::split(c)`):
/// one more piece than there are occurrences.
pub open spec fn split_at_char(s: Seq<char>, c: char) -> Seq<Seq<char>>
    decreases s.len(),
{
    match find(s, seq![c]) {
        None => seq![s],
        Some(i) => {
            proof {
                lemma_find_from(s, seq![c], 0);
            }
            seq![s.take(i)] + split_at_char(s.skip(i + 1), c)
        },
    }
}

/// Whether `c` is whitespace.
pub fn is_whitespace_exec(c: char) -> (b: bool)
    ensures
        b == is_whitespace(c),
{
    let u = c as u32;
    (0x09 <= u && u <= 0x0d) || u == 0x20 || u == 0x85 || u == 0xa0 || u == 0x1680
        || (0x2000 <= u && u <= 0x200a) || u == 0x2028 || u == 0x2029 || u == 0x202f
        || u == 0x205f || u == 0x3000
}

/// `trim_start(s.skip(i))` is `s.skip(j)` for the first non-whitespace `j`
/// at or after `i`.
proof fn lemma_trim_start_step(s: Seq<char>, i: int)
    requires
        0 <= i < s.len(),
        is_whitespace(s[i]),
    ensures
        trim_start(s.skip(i)) == trim_start(s.skip(i + 1)),
{
    assert(s.skip(i).skip(1) =~= s.skip(i + 1));
}

/// `trim_end(s.take(j))` steps back over trailing whitespace.
proof fn lemma_trim_end_step(s: Seq<char>, j: int)
    requires
        0 < j <= s.len(),
        is_whitespace(s[j - 1]),
    ensures
        trim_end(s.take(j)) == trim_end(s.take(j - 1)),
{
    assert(s.take(j).drop_last() =~= s.take(j - 1));
}

/// The characters of `s[lo..hi]` without leading and trailing whitespace.
pub fn trim_range(s: &Vec<char>, lo: usize, hi: usize) -> (r: Vec<char>)
    requires
        lo <= hi <= s.len(),
    ensures
        r@ == trim(s@.subrange(lo as int, hi as int)),
{
    let ghost t = s@.subrange(lo as int, hi as int);
    let mut a = lo;
    assert(t.skip(0) =~= t);
    while a < hi && is_whitespace_exec(s[a])
        invariant
            lo <= a <= hi <= s.len(),
            t == s@.subrange(lo as int, hi as int),
            trim_start(t) == trim_start(t.skip(a - lo)),
        decreases hi - a,
    {
        proof {
            lemma_trim_start_step(t, a - lo);
        }
        a = a + 1;
    }
    let ghost u = t.skip(a - lo);
    assert(trim_start(u) == u);
    assert(u =~= s@.subrange(a as int, hi as int));
    let mut b = hi;
    assert(u.take(hi - a) =~= u);
    while b > a && is_whitespace_exec(s[b - 1])
        invariant
            lo <= a <= b <= hi <= s.len(),
            u == s@.subrange(a as int, hi as int),
            trim_end(u) == trim_end(u.take(b - a)),
        decreases b - a,
    {
        proof {
            lemma_trim_end_step(u, b - a);
        }
        b = b - 1;
    }
    assert(trim_end(u.take(b - a)) == u.take(b - a));
    assert(u.take(b - a) =~= s@.subrange(a as int, b as int));
    let mut r: Vec<char> = Vec::new();
    extend_range(&mut r, s, a, b);
    assert(r@ =~= s@.subrange(a as int, b as int));
    r
}

/// `s` with every occurrence of the non-empty `p` removed.
pub fn remove_all_exec(s: &Vec<char>, p: &Vec<char>) -> (r: Vec<char>)
    requires
        p.len() > 0,
    ensures
        r@ == remove_all(s@, p@),
{
    let mut out: Vec<char> = Vec::new();
    let mut pos: usize = 0;
    let slen = s.len();
    assert(s@.skip(0) =~= s@);
    assert(out@ + remove_all(s@, p@) =~= remove_all(s@, p@));
    loop
        invariant
            pos <= s.len(),
            slen == s.len(),
            p.len() > 0,
            out@ + remove_all(s@.skip(pos as int), p@) == remove_all(s@, p@),
        decreases s.len() - pos,
    {
        let m = find_from_exec(s, p, pos);
        let ghost t = s@.skip(pos as int);
        proof {
            lemma_find_from(s@, p@, pos as int);
            lemma_find_from_skip(s@, p@, pos as int);
        }
        match m {
            None => {
                extend_range(&mut out, s, pos, slen);
                assert(s@.subrange(pos as int, slen as int) =~= t);
                assert(out@ =~= remove_all(s@, p@));
                return out;
            },
            Some(k) => {
                assert(matches_at(s@, p@, k as int));
                assert(k + p@.len() <= slen);
                extend_range(&mut out, s, pos, k);
                assert(t.take(k - pos) =~= s@.subrange(pos as int, k as int));
                assert(t.skip(k - pos + p.len()) =~= s@.skip(k + p.len()));
                pos = k + p.len();
            },
        }
    }
}

/// Searching `u + v` past `u` finds what searching `v` finds, shifted by
/// the length of `u`.
pub proof fn lemma_find_from_append(u: Seq<char>, v: Seq<char>, p: Seq<char>, from: int)
    requires
        0 <= from,
    ensures
        find_from(u + v, p, u.len() + from) == (match find_from(v, p, from) {
            Some(k) => Some(k + u.len()),
            None => None,
        }),
{
    let s = u + v;
    let l = u.len() as int;
    lemma_find_from(s, p, l + from);
    lemma_find_from(v, p, from);
    assert forall|j: int| 0 <= j implies matches_at(s, p, j + l) == matches_at(v, p, j) by {
        if j + p.len() <= v.len() {
            assert(s.subrange(j + l, j + l + p.len()) =~= v.subrange(j, j + p.len()));
        }
    }
    match find_from(v, p, from) {
        Some(k) => {
            assert(matches_at(s, p, k + l));
            assert forall|j: int| l + from <= j < k + l implies !matches_at(s, p, j) by {
                assert(!matches_at(v, p, j - l));
            }
            lemma_find_from_unique(s, p, l + from, k + l);
        },
        None => {
            if let Some(j) = find_from(s, p, l + from) {
                assert(matches_at(v, p, j - l));
            }
        },
    }
}

/// Searching a suffix finds what searching from its start finds, shifted.
pub proof fn lemma_find_from_skip(s: Seq<char>, p: Seq<char>, pos: int)
    requires
        0 <= pos <= s.len(),
    ensures
        find(s.skip(pos), p) == (match find_from(s, p, pos) {
            Some(k) => Some(k - pos),
            None => None,
        }),
{
    let t = s.skip(pos);
    lemma_find_from(s, p, pos);
    lemma_find_from(t, p, 0);
    assert forall|j: int| 0 <= j implies matches_at(t, p, j) == matches_at(s, p, j + pos) by {
        if j + p.len() <= t.len() {
            assert(t.subrange(j, j + p.len()) =~= s.subrange(j + pos, j + pos + p.len()));
        }
    }
    match find_from(s, p, pos) {
        Some(k) => {
            assert(matches_at(t, p, k - pos));
            lemma_find_from_unique(t, p, 0, k - pos);
        },
        None => {
            if let Some(j) = find(t, p) {
                assert(matches_at(s, p, j + pos));
            }
        },
    }
}

/// Whether `a` and `b` hold the same characters.
pub fn chars_eq(a: &Vec<char>, b: &Vec<char>) -> (r: bool)
    ensures
        r == (a@ == b@),
{
    if a.len() != b.len() {
        return false;
    }
    let mut i: usize = 0;
    while i < a.len()
        invariant
            i <= a.len() == b.len(),
            forall|k: int| 0 <= k < i ==> a@[k] == b@[k],
        decreases a.len() - i,
    {
        if a[i] != b[i] {
            return false;
        }
        i = i + 1;
    }
    assert(a@ =~= b@);
    true
}

} // verus!
