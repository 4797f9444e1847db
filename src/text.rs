//! Character-level building blocks shared by every report parser.
//!
//! Text is handled as `Vec<char>`; each operation is specified over the
//! `Seq<char>` view with index-based recursive spec functions, so that the
//! loops below can follow the specification one character at a time.

use vstd::prelude::*;

verus! {

/// Unicode `White_Space`, the set that `char::is_whitespace` and `str::trim` use.
pub open spec fn is_space(c: char) -> bool {
    c == ' ' || ('\t' <= c && c <= '\r') || c == '\u{85}' || c == '\u{a0}' || c == '\u{1680}'
        || ('\u{2000}' <= c && c <= '\u{200a}') || c == '\u{2028}' || c == '\u{2029}'
        || c == '\u{202f}' || c == '\u{205f}' || c == '\u{3000}'
}

/// The sets of characters that the parsers strip from the ends of a piece of text.
#[derive(Clone, Copy, PartialEq, Eq, Structural, Debug)]
pub enum CharClass {
    /// Unicode white space.
    Space,
    /// Anything but white space.
    NonSpace,
    /// The space and the box-drawing glyphs that draw a report's tree.
    Decoration,
    /// The default marker `*` and the space.
    StarOrSpace,
    /// The default marker `*` alone.
    Star,
    /// The double quote.
    Quote,
    /// White space and the underscore.
    SpaceOrUnderscore,
}

pub open spec fn in_class(k: CharClass, c: char) -> bool {
    match k {
        CharClass::Space => is_space(c),
        CharClass::NonSpace => !is_space(c),
        CharClass::Decoration => c == ' ' || c == '\u{2502}' || c == '\u{251c}' || c == '\u{2514}'
            || c == '\u{2500}',
        CharClass::StarOrSpace => c == '*' || c == ' ',
        CharClass::Star => c == '*',
        CharClass::Quote => c == '"',
        CharClass::SpaceOrUnderscore => is_space(c) || c == '_',
    }
}

pub fn space_char(c: char) -> (r: bool)
    ensures
        r == is_space(c),
{
    c == ' ' || ('\t' <= c && c <= '\r') || c == '\u{85}' || c == '\u{a0}' || c == '\u{1680}'
        || ('\u{2000}' <= c && c <= '\u{200a}') || c == '\u{2028}' || c == '\u{2029}' || c
        == '\u{202f}' || c == '\u{205f}' || c == '\u{3000}'
}

pub fn class_holds(k: CharClass, c: char) -> (r: bool)
    ensures
        r == in_class(k, c),
{
    match k {
        CharClass::Space => space_char(c),
        CharClass::NonSpace => !space_char(c),
        CharClass::Decoration => c == ' ' || c == '\u{2502}' || c == '\u{251c}' || c
            == '\u{2514}' || c == '\u{2500}',
        CharClass::StarOrSpace => c == '*' || c == ' ',
        CharClass::Star => c == '*',
        CharClass::Quote => c == '"',
        CharClass::SpaceOrUnderscore => space_char(c) || c == '_',
    }
}

/// The first index at or after `i` whose character is not in `k` (or the length).
pub open spec fn lead_end(s: Seq<char>, k: CharClass, i: int) -> int
    decreases s.len() - i,
{
    if 0 <= i < s.len() && in_class(k, s[i]) {
        lead_end(s, k, i + 1)
    } else {
        i
    }
}

/// The smallest index `a <= j` such that every character in `a..j` is in `k`.
pub open spec fn trail_start(s: Seq<char>, k: CharClass, j: int) -> int
    decreases j,
{
    if 0 < j <= s.len() && in_class(k, s[j - 1]) {
        trail_start(s, k, j - 1)
    } else {
        j
    }
}

/// `s` without its leading characters of class `k` (`trim_start_matches`).
pub open spec fn strip_start(s: Seq<char>, k: CharClass) -> Seq<char> {
    s.skip(lead_end(s, k, 0))
}

/// `s` without its trailing characters of class `k` (`trim_end_matches`).
pub open spec fn strip_end(s: Seq<char>, k: CharClass) -> Seq<char> {
    s.take(trail_start(s, k, s.len() as int))
}

/// `s` without leading and trailing characters of class `k` (`trim_matches`).
pub open spec fn strip(s: Seq<char>, k: CharClass) -> Seq<char> {
    strip_end(strip_start(s, k), k)
}

/// `s` without leading and trailing white space (`str::trim`).
pub open spec fn trim(s: Seq<char>) -> Seq<char> {
    strip(s, CharClass::Space)
}

/// The first index at or after `i` holding `c`, or -1 (`str::find` of a char).
pub open spec fn find_char(s: Seq<char>, c: char, i: int) -> int
    decreases s.len() - i,
{
    if i < 0 || i >= s.len() {
        -1
    } else if s[i] == c {
        i
    } else {
        find_char(s, c, i + 1)
    }
}

/// Whether `p` occurs in `s` at index `i`.
pub open spec fn occurs_at(s: Seq<char>, p: Seq<char>, i: int) -> bool {
    0 <= i && i + p.len() <= s.len() && s.subrange(i, i + p.len()) == p
}

/// The first index at or after `i` where `p` occurs in `s`, or -1 (`str::find`).
pub open spec fn find_seq(s: Seq<char>, p: Seq<char>, i: int) -> int
    decreases s.len() + 1 - i,
{
    if i < 0 || i + p.len() > s.len() {
        -1
    } else if occurs_at(s, p, i) {
        i
    } else {
        find_seq(s, p, i + 1)
    }
}

/// `str::contains` with a pattern.
pub open spec fn contains(s: Seq<char>, p: Seq<char>) -> bool {
    find_seq(s, p, 0) >= 0
}

/// `str::starts_with` with a pattern.
pub open spec fn starts_with(s: Seq<char>, p: Seq<char>) -> bool {
    p.len() <= s.len() && s.take(p.len() as int) == p
}

/// `str::ends_with` with a pattern.
pub open spec fn ends_with(s: Seq<char>, p: Seq<char>) -> bool {
    p.len() <= s.len() && s.skip(s.len() - p.len()) == p
}

/// The pieces of `s` from index `i` on, split at every `sep`, empty pieces kept
/// (`str::split` with a char); `cur` is the piece begun before `i`.
pub open spec fn split_from(s: Seq<char>, sep: char, i: int, cur: Seq<char>) -> Seq<Seq<char>>
    decreases s.len() - i,
{
    if i < 0 || i >= s.len() {
        seq![cur]
    } else if s[i] == sep {
        seq![cur] + split_from(s, sep, i + 1, Seq::empty())
    } else {
        split_from(s, sep, i + 1, cur.push(s[i]))
    }
}

pub open spec fn split_on(s: Seq<char>, sep: char) -> Seq<Seq<char>> {
    split_from(s, sep, 0, Seq::empty())
}

/// The maximal runs of characters outside class `k` in `s` from `i` on;
/// `cur` is the run begun before `i`.
pub open spec fn tokens_from(s: Seq<char>, k: CharClass, i: int, cur: Seq<char>) -> Seq<Seq<char>>
    decreases s.len() - i,
{
    if i < 0 || i >= s.len() {
        if cur.len() > 0 {
            seq![cur]
        } else {
            Seq::empty()
        }
    } else if in_class(k, s[i]) {
        (if cur.len() > 0 {
            seq![cur]
        } else {
            Seq::empty()
        }) + tokens_from(s, k, i + 1, Seq::empty())
    } else {
        tokens_from(s, k, i + 1, cur.push(s[i]))
    }
}

/// The non-empty pieces of `s` between characters of class `k`.
pub open spec fn tokens(s: Seq<char>, k: CharClass) -> Seq<Seq<char>> {
    tokens_from(s, k, 0, Seq::empty())
}

/// The white-space separated words of `s` (`str::split_whitespace`).
pub open spec fn words(s: Seq<char>) -> Seq<Seq<char>> {
    tokens(s, CharClass::Space)
}

/// `cur` without one trailing carriage return.
pub open spec fn drop_cr(cur: Seq<char>) -> Seq<char> {
    if cur.len() > 0 && cur.last() == '\r' {
        cur.drop_last()
    } else {
        cur
    }
}

/// The lines of `s` from `i` on (`str::lines`): split at `\n`, a `\r` right
/// before it dropped, no empty piece after a final `\n`.
pub open spec fn lines_from(s: Seq<char>, i: int, cur: Seq<char>) -> Seq<Seq<char>>
    decreases s.len() - i,
{
    if i < 0 || i >= s.len() {
        if cur.len() > 0 {
            seq![cur]
        } else {
            Seq::empty()
        }
    } else if s[i] == '\n' {
        seq![drop_cr(cur)] + lines_from(s, i + 1, Seq::empty())
    } else {
        lines_from(s, i + 1, cur.push(s[i]))
    }
}

pub open spec fn lines(s: Seq<char>) -> Seq<Seq<char>> {
    lines_from(s, 0, Seq::empty())
}

/// The views of a sequence of character vectors.
pub open spec fn views(v: Seq<Vec<char>>) -> Seq<Seq<char>> {
    v.map_values(|x: Vec<char>| x@)
}

/// The characters of `s`, in order.
pub fn chars_of(s: &str) -> (r: Vec<char>)
    ensures
        r@ == s@,
{
    let mut r: Vec<char> = Vec::new();
    for c in it: s.chars()
        invariant
            r@ == it.seq().take(it.index() as int),
    {
        r.push(c);
    }
    r
}

/// Relies on `String: FromIterator<char>`: the string holds the given
/// characters, in order.
#[verifier::external_body]
pub fn string_of(v: &Vec<char>) -> (r: String)
    ensures
        r@ == v@,
{
    v.iter().collect()
}

/// A copy of `v[lo..hi]`.
pub fn copy_range(v: &Vec<char>, lo: usize, hi: usize) -> (r: Vec<char>)
    requires
        lo <= hi <= v.len(),
    ensures
        r@ == v@.subrange(lo as int, hi as int),
{
    let mut r: Vec<char> = Vec::new();
    let mut i = lo;
    while i < hi
        invariant
            lo <= i <= hi <= v.len(),
            r@ == v@.subrange(lo as int, i as int),
        decreases hi - i,
    {
        r.push(v[i]);
        i += 1;
    }
    r
}

/// The string of `v[lo..hi]`.
pub fn string_range(v: &Vec<char>, lo: usize, hi: usize) -> (r: String)
    requires
        lo <= hi <= v.len(),
    ensures
        r@ == v@.subrange(lo as int, hi as int),
{
    string_of(&copy_range(v, lo, hi))
}

/// The index where the leading run of class `k` in `v[lo..hi]` ends.
pub fn skip_class(v: &Vec<char>, lo: usize, hi: usize, k: CharClass) -> (r: usize)
    requires
        lo <= hi <= v.len(),
    ensures
        lo <= r <= hi,
        r - lo == lead_end(v@.subrange(lo as int, hi as int), k, 0),
{
    let ghost s = v@.subrange(lo as int, hi as int);
    let mut i = lo;
    while i < hi && class_holds(k, v[i])
        invariant
            lo <= i <= hi <= v.len(),
            s == v@.subrange(lo as int, hi as int),
            lead_end(s, k, 0) == lead_end(s, k, i - lo),
        decreases hi - i,
    {
        i += 1;
    }
    i
}

/// The index where the trailing run of class `k` in `v[lo..hi]` starts.
pub fn skip_class_back(v: &Vec<char>, lo: usize, hi: usize, k: CharClass) -> (r: usize)
    requires
        lo <= hi <= v.len(),
    ensures
        lo <= r <= hi,
        r - lo == trail_start(v@.subrange(lo as int, hi as int), k, hi - lo),
{
    let ghost s = v@.subrange(lo as int, hi as int);
    let mut j = hi;
    while j > lo && class_holds(k, v[j - 1])
        invariant
            lo <= j <= hi <= v.len(),
            s == v@.subrange(lo as int, hi as int),
            trail_start(s, k, hi - lo) == trail_start(s, k, j - lo),
        decreases j,
    {
        j -= 1;
    }
    j
}

/// The bounds of `strip(v[lo..hi], k)`.
pub fn strip_range(v: &Vec<char>, lo: usize, hi: usize, k: CharClass) -> (r: (usize, usize))
    requires
        lo <= hi <= v.len(),
    ensures
        lo <= r.0 <= r.1 <= hi,
        v@.subrange(r.0 as int, r.1 as int) == strip(v@.subrange(lo as int, hi as int), k),
{
    let a = skip_class(v, lo, hi, k);
    let b = skip_class_back(v, a, hi, k);
    proof {
        let s = v@.subrange(lo as int, hi as int);
        assert(strip_start(s, k) =~= v@.subrange(a as int, hi as int));
        assert(v@.subrange(a as int, b as int) =~= strip_end(
            v@.subrange(a as int, hi as int),
            k,
        ));
    }
    (a, b)
}

/// The bounds of `trim(v[lo..hi])`.
pub fn trim_range(v: &Vec<char>, lo: usize, hi: usize) -> (r: (usize, usize))
    requires
        lo <= hi <= v.len(),
    ensures
        lo <= r.0 <= r.1 <= hi,
        v@.subrange(r.0 as int, r.1 as int) == trim(v@.subrange(lo as int, hi as int)),
{
    strip_range(v, lo, hi, CharClass::Space)
}

/// The first index of `c` in `v[lo..hi]`, relative to `lo`.
pub fn find_char_in(v: &Vec<char>, lo: usize, hi: usize, c: char) -> (r: Option<usize>)
    requires
        lo <= hi <= v.len(),
    ensures
        match r {
            Some(j) => j as int == find_char(v@.subrange(lo as int, hi as int), c, 0) && j < hi
                - lo,
            None => find_char(v@.subrange(lo as int, hi as int), c, 0) == -1,
        },
{
    let ghost s = v@.subrange(lo as int, hi as int);
    let mut i = lo;
    while i < hi
        invariant
            lo <= i <= hi <= v.len(),
            s == v@.subrange(lo as int, hi as int),
            find_char(s, c, 0) == find_char(s, c, i - lo),
        decreases hi - i,
    {
        if v[i] == c {
            return Some(i - lo);
        }
        i += 1;
    }
    None
}

/// Whether `p` occurs in `v` at index `i`, looking no further than `hi`.
pub fn occurs_in(v: &Vec<char>, i: usize, hi: usize, p: &Vec<char>) -> (r: bool)
    requires
        i <= hi <= v.len(),
    ensures
        r == (i + p.len() <= hi && v@.subrange(i as int, i + p.len()) == p@),
{
    if p.len() > hi - i {
        return false;
    }
    let mut j: usize = 0;
    while j < p.len()
        invariant
            i + p.len() <= hi <= v.len(),
            j <= p.len(),
            forall|m: int| 0 <= m < j ==> v@[i + m] == p@[m],
        decreases p.len() - j,
    {
        if v[i + j] != p[j] {
            assert(v@.subrange(i as int, i + p.len())[j as int] != p@[j as int]);
            return false;
        }
        j += 1;
    }
    assert(v@.subrange(i as int, i + p.len()) =~= p@);
    true
}

/// The first index of `p` in `v[lo..hi]`, relative to `lo`.
pub fn find_seq_in(v: &Vec<char>, lo: usize, hi: usize, p: &Vec<char>) -> (r: Option<usize>)
    requires
        lo <= hi <= v.len(),
    ensures
        match r {
            Some(j) => j as int == find_seq(v@.subrange(lo as int, hi as int), p@, 0) && j + p.len()
                <= hi - lo,
            None => find_seq(v@.subrange(lo as int, hi as int), p@, 0) == -1,
        },
{
    let ghost s = v@.subrange(lo as int, hi as int);
    let mut i = lo;
    while p.len() <= hi - i
        invariant
            lo <= i <= hi <= v.len(),
            s == v@.subrange(lo as int, hi as int),
            find_seq(s, p@, 0) == find_seq(s, p@, i - lo),
        decreases hi - i,
    {
        let hit = occurs_in(v, i, hi, p);
        assert(s.subrange(i - lo, i - lo + p.len()) =~= v@.subrange(i as int, i + p.len()));
        if hit {
            return Some(i - lo);
        }
        assert(p@.len() > 0) by {
            if p@.len() == 0 {
                assert(v@.subrange(i as int, i as int) =~= p@);
            }
        }
        i += 1;
    }
    None
}

/// Whether `v[lo..hi]` begins with `p`.
pub fn starts_with_in(v: &Vec<char>, lo: usize, hi: usize, p: &Vec<char>) -> (r: bool)
    requires
        lo <= hi <= v.len(),
    ensures
        r == starts_with(v@.subrange(lo as int, hi as int), p@),
{
    let r = occurs_in(v, lo, hi, p);
    assert(r ==> v@.subrange(lo as int, hi as int).take(p.len() as int) =~= v@.subrange(
        lo as int,
        lo + p.len(),
    ));
    assert(starts_with(v@.subrange(lo as int, hi as int), p@) ==> v@.subrange(
        lo as int,
        hi as int,
    ).take(p.len() as int) =~= v@.subrange(lo as int, lo + p.len()));
    r
}

/// Whether `p` occurs in `v[lo..hi]`.
pub fn contains_in(v: &Vec<char>, lo: usize, hi: usize, p: &Vec<char>) -> (r: bool)
    requires
        lo <= hi <= v.len(),
    ensures
        r == contains(v@.subrange(lo as int, hi as int), p@),
{
    find_seq_in(v, lo, hi, p).is_some()
}

proof fn lemma_views_push(out: Seq<Vec<char>>, x: Vec<char>)
    ensures
        views(out.push(x)) == views(out).push(x@),
{
    assert(views(out.push(x)) =~= views(out).push(x@));
}

/// The lines of `v` (`str::lines`).
pub fn lines_in(v: &Vec<char>) -> (r: Vec<Vec<char>>)
    ensures
        views(r@) == lines(v@),
{
    let mut out: Vec<Vec<char>> = Vec::new();
    let mut cur: Vec<char> = Vec::new();
    let mut i: usize = 0;
    while i < v.len()
        invariant
            i <= v.len(),
            views(out@) + lines_from(v@, i as int, cur@) == lines(v@),
        decreases v.len() - i,
    {
        if v[i] == '\n' {
            let ghost before = views(out@);
            let ghost c = cur@;
            if cur.len() > 0 && cur[cur.len() - 1] == '\r' {
                cur.pop();
            }
            assert(cur@ == drop_cr(c));
            proof {
                lemma_views_push(out@, cur);
            }
            out.push(cur);
            assert(views(out@) + lines_from(v@, i + 1, Seq::empty()) =~= before + lines_from(
                v@,
                i as int,
                c,
            ));
            cur = Vec::new();
        } else {
            cur.push(v[i]);
        }
        i += 1;
    }
    if cur.len() > 0 {
        proof {
            lemma_views_push(out@, cur);
        }
        let ghost before = views(out@);
        out.push(cur);
        assert(views(out@) =~= before + lines_from(v@, i as int, cur@));
    } else {
        assert(views(out@) =~= views(out@) + lines_from(v@, i as int, cur@));
    }
    out
}

/// The pieces of `v` between the separators `sep` (`str::split` with a char).
pub fn split_in(v: &Vec<char>, sep: char) -> (r: Vec<Vec<char>>)
    ensures
        views(r@) == split_on(v@, sep),
{
    let mut out: Vec<Vec<char>> = Vec::new();
    let mut cur: Vec<char> = Vec::new();
    let mut i: usize = 0;
    while i < v.len()
        invariant
            i <= v.len(),
            views(out@) + split_from(v@, sep, i as int, cur@) == split_on(v@, sep),
        decreases v.len() - i,
    {
        if v[i] == sep {
            let ghost before = views(out@);
            let ghost c = cur@;
            proof {
                lemma_views_push(out@, cur);
            }
            out.push(cur);
            assert(views(out@) + split_from(v@, sep, i + 1, Seq::empty()) =~= before
                + split_from(v@, sep, i as int, c));
            cur = Vec::new();
        } else {
            cur.push(v[i]);
        }
        i += 1;
    }
    proof {
        lemma_views_push(out@, cur);
    }
    let ghost before = views(out@);
    out.push(cur);
    assert(views(out@) =~= before + split_from(v@, sep, i as int, cur@));
    out
}

/// The non-empty pieces of `v` between characters of class `k`.
pub fn tokens_in(v: &Vec<char>, k: CharClass) -> (r: Vec<Vec<char>>)
    ensures
        views(r@) == tokens(v@, k),
{
    let mut out: Vec<Vec<char>> = Vec::new();
    let mut cur: Vec<char> = Vec::new();
    let mut i: usize = 0;
    while i < v.len()
        invariant
            i <= v.len(),
            views(out@) + tokens_from(v@, k, i as int, cur@) == tokens(v@, k),
        decreases v.len() - i,
    {
        if class_holds(k, v[i]) {
            let ghost before = views(out@);
            let ghost c = cur@;
            if cur.len() > 0 {
                proof {
                    lemma_views_push(out@, cur);
                }
                out.push(cur);
                assert(views(out@) + tokens_from(v@, k, i + 1, Seq::empty()) =~= before + tokens_from(
                    v@,
                    k,
                    i as int,
                    c,
                ));
                cur = Vec::new();
            } else {
                assert(c =~= Seq::<char>::empty());
                assert(tokens_from(v@, k, i as int, c) =~= Seq::<Seq<char>>::empty() + tokens_from(
                    v@,
                    k,
                    i + 1,
                    Seq::empty(),
                ));
                assert(views(out@) + tokens_from(v@, k, i + 1, Seq::empty()) =~= before + tokens_from(
                    v@,
                    k,
                    i as int,
                    c,
                ));
                cur = Vec::new();
            }
        } else {
            cur.push(v[i]);
        }
        i += 1;
    }
    if cur.len() > 0 {
        proof {
            lemma_views_push(out@, cur);
        }
        let ghost before = views(out@);
        out.push(cur);
        assert(views(out@) =~= before + tokens_from(v@, k, i as int, cur@));
    } else {
        assert(views(out@) =~= views(out@) + tokens_from(v@, k, i as int, cur@));
    }
    out
}

/// The white-space separated words of `v` (`str::split_whitespace`).
pub fn words_in(v: &Vec<char>) -> (r: Vec<Vec<char>>)
    ensures
        views(r@) == words(v@),
{
    tokens_in(v, CharClass::Space)
}

/// Ranges of a range are ranges of the whole.
pub proof fn lemma_nested(s: Seq<char>, a: int, b: int, c: int, d: int)
    requires
        0 <= a <= b <= s.len(),
        0 <= c <= d <= b - a,
    ensures
        s.subrange(a, b).subrange(c, d) == s.subrange(a + c, a + d),
        s.subrange(a, b).take(c) == s.subrange(a, a + c),
        s.subrange(a, b).skip(c) == s.subrange(a + c, b),
{
    assert(s.subrange(a, b).subrange(c, d) =~= s.subrange(a + c, a + d));
    assert(s.subrange(a, b).take(c) =~= s.subrange(a, a + c));
    assert(s.subrange(a, b).skip(c) =~= s.subrange(a + c, b));
}

/// Whether `a` comes no later than `b` in the order of `str::cmp`, looking
/// from index `i` on, the characters before `i` being equal (the order of
/// UTF-8 bytes is that of code points).
pub open spec fn lex_le_from(a: Seq<char>, b: Seq<char>, i: int) -> bool
    decreases a.len() - i,
{
    if i < 0 || i >= a.len() {
        true
    } else if i >= b.len() {
        false
    } else if (a[i] as u32) != (b[i] as u32) {
        (a[i] as u32) < (b[i] as u32)
    } else {
        lex_le_from(a, b, i + 1)
    }
}

/// The order of `str::cmp`: `a` comes no later than `b`.
pub open spec fn lex_le(a: Seq<char>, b: Seq<char>) -> bool {
    lex_le_from(a, b, 0)
}

pub proof fn lemma_lex_total(a: Seq<char>, b: Seq<char>, i: int)
    requires
        0 <= i,
    ensures
        lex_le_from(a, b, i) || lex_le_from(b, a, i),
    decreases a.len() - i,
{
    if i < a.len() && i < b.len() && (a[i] as u32) == (b[i] as u32) {
        lemma_lex_total(a, b, i + 1);
    }
}

pub proof fn lemma_lex_trans(a: Seq<char>, b: Seq<char>, c: Seq<char>, i: int)
    requires
        0 <= i,
        lex_le_from(a, b, i),
        lex_le_from(b, c, i),
    ensures
        lex_le_from(a, c, i),
    decreases a.len() - i,
{
    if i < a.len() && i < b.len() && i < c.len() && (a[i] as u32) == (b[i] as u32) && (b[i] as u32)
        == (c[i] as u32) {
        lemma_lex_trans(a, b, c, i + 1);
    }
}

/// Whether `a` comes no later than `b` in the order of `str::cmp`.
pub fn lex_le_exec(a: &Vec<char>, b: &Vec<char>) -> (r: bool)
    ensures
        r == lex_le(a@, b@),
{
    let mut i: usize = 0;
    while i < a.len()
        invariant
            i <= a.len(),
            lex_le(a@, b@) == lex_le_from(a@, b@, i as int),
        decreases a.len() - i,
    {
        if i >= b.len() {
            return false;
        }
        if a[i] as u32 != b[i] as u32 {
            return (a[i] as u32) < (b[i] as u32);
        }
        i += 1;
    }
    true
}

/// Scanning past a run of class `k` ends where scanning from the run's end does.
pub proof fn lemma_lead_end_run(s: Seq<char>, k: CharClass, i: int, j: int)
    requires
        0 <= i <= j <= s.len(),
        forall|m: int| i <= m < j ==> in_class(k, #[trigger] s[m]),
    ensures
        lead_end(s, k, i) == lead_end(s, k, j),
    decreases j - i,
{
    if i < j {
        lemma_lead_end_run(s, k, i + 1, j);
    }
}

/// Searching for `c` past a stretch without it ends where searching from its end does.
pub proof fn lemma_find_char_run(s: Seq<char>, c: char, i: int, j: int)
    requires
        0 <= i <= j <= s.len(),
        forall|m: int| i <= m < j ==> #[trigger] s[m] != c,
    ensures
        find_char(s, c, i) == find_char(s, c, j),
    decreases j - i,
{
    if i < j {
        lemma_find_char_run(s, c, i + 1, j);
    }
}

/// Searching for `p` past positions where it does not occur ends where
/// searching from after them does.
pub proof fn lemma_find_seq_run(s: Seq<char>, p: Seq<char>, i: int, j: int)
    requires
        0 <= i <= j,
        forall|m: int| i <= m < j ==> !occurs_at(s, p, m),
    ensures
        find_seq(s, p, i) == find_seq(s, p, j),
    decreases j - i,
{
    if i < j {
        lemma_find_seq_run(s, p, i + 1, j);
    }
}

/// The views of a sequence of strings.
pub open spec fn string_views(v: Seq<String>) -> Seq<Seq<char>> {
    v.map_values(|s: String| s@)
}

/// Appends the characters of `s` to `out`.
pub fn push_all(out: &mut Vec<char>, s: &Vec<char>)
    ensures
        final(out)@ == old(out)@ + s@,
{
    let mut i: usize = 0;
    while i < s.len()
        invariant
            i <= s.len(),
            out@ == old(out)@ + s@.take(i as int),
        decreases s.len() - i,
    {
        out.push(s[i]);
        i += 1;
        assert(out@ =~= old(out)@ + s@.take(i as int));
    }
    assert(s@.take(s.len() as int) =~= s@);
}

/// Whether two character vectors are equal.
pub fn same_chars(a: &Vec<char>, b: &Vec<char>) -> (r: bool)
    ensures
        r == (a@ == b@),
{
    if a.len() != b.len() {
        return false;
    }
    let mut i: usize = 0;
    while i < a.len()
        invariant
            i <= a.len() == b.len(),
            forall|k: int| 0 <= k < i ==> a@[k] == b@[k],
        decreases a.len() - i,
    {
        if a[i] != b[i] {
            return false;
        }
        i += 1;
    }
    assert(a@ =~= b@);
    true
}

/// A space before text whose ends are not white space is trimmed away.
pub proof fn lemma_trim_after_space(r1: Seq<char>)
    requires
        r1.len() > 0,
        !is_space(r1[0]),
        !is_space(r1.last()),
    ensures
        trim(seq![' '] + r1) == r1,
{
    let rest0 = seq![' '] + r1;
    assert(rest0[1] == r1[0]);
    assert(lead_end(rest0, CharClass::Space, 1) == 1);
    assert(lead_end(rest0, CharClass::Space, 0) == 1);
    let sr = strip_start(rest0, CharClass::Space);
    assert(sr =~= r1);
    assert(trail_start(r1, CharClass::Space, r1.len() as int) == r1.len());
    assert(trim(rest0) =~= r1);
}

/// Text that neither begins nor ends with white space is its own trim.
pub proof fn lemma_trim_unchanged(x: Seq<char>)
    requires
        x.len() == 0 || (!is_space(x[0]) && !is_space(x.last())),
    ensures
        trim(x) == x,
{
    assert(lead_end(x, CharClass::Space, 0) == 0);
    assert(strip_start(x, CharClass::Space) =~= x);
    assert(trail_start(x, CharClass::Space, x.len() as int) == x.len());
    assert(trim(x) =~= x);
}

/// Splitting past a stretch without the separator adds that stretch to the
/// piece begun.
pub proof fn lemma_split_run(s: Seq<char>, sep: char, i: int, j: int, cur: Seq<char>)
    requires
        0 <= i <= j <= s.len(),
        forall|m: int| i <= m < j ==> #[trigger] s[m] != sep,
    ensures
        split_from(s, sep, i, cur) == split_from(s, sep, j, cur + s.subrange(i, j)),
    decreases j - i,
{
    if i < j {
        lemma_split_run(s, sep, i + 1, j, cur.push(s[i]));
        assert(cur.push(s[i]) + s.subrange(i + 1, j) =~= cur + s.subrange(i, j));
    } else {
        assert(cur + s.subrange(i, j) =~= cur);
    }
}

} // verus!
