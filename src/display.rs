//! Display modes that each monitor advertises, as the compositor's monitor
//! report lists them.

use vstd::prelude::*;
use crate::number::{parse_decimal, parse_unsigned, read_decimal, read_unsigned, Decimal};
use crate::text::{
    chars_of, contains, contains_in, ends_with, find_char, find_char_in, lemma_nested, lines,
    lines_in, same_chars, starts_with, starts_with_in, string_of, trim, trim_range, views, words,
    words_in,
};

verus! {

/// A resolution and refresh rate that a monitor can run at.
#[derive(Clone, Copy, PartialEq, Eq, Structural, Debug)]
pub struct DisplayMode {
    pub width: u16,
    pub height: u16,
    pub refresh_rate: Decimal,
}

/// The mode that a token shaped `<width>x<height>@<rate>Hz` names: split at
/// the first `@`, the resolution at the first `x`; the rate must end in `Hz`,
/// and what comes before that suffix must be a decimal.
pub open spec fn mode_token(tok: Seq<char>) -> Option<DisplayMode> {
    let at = find_char(tok, '@', 0);
    if at < 0 {
        None
    } else {
        let res = tok.take(at);
        let x = find_char(res, 'x', 0);
        if x < 0 || !ends_with(tok.skip(at + 1), "Hz"@) {
            None
        } else {
            match (
                parse_unsigned(res.take(x), u16::MAX as int),
                parse_unsigned(res.skip(x + 1), u16::MAX as int),
                parse_decimal(tok.subrange(at + 1, tok.len() - 2)),
            ) {
                (Some(w), Some(h), Some(rate)) => Some(
                    DisplayMode { width: w as u16, height: h as u16, refresh_rate: rate },
                ),
                _ => None,
            }
        }
    }
}

/// The modes that the tokens name, in order; a token that names none is left out.
pub open spec fn modes_of(toks: Seq<Seq<char>>) -> Seq<DisplayMode>
    decreases toks.len(),
{
    if toks.len() == 0 {
        Seq::empty()
    } else {
        match mode_token(toks.last()) {
            Some(m) => modes_of(toks.drop_last()).push(m),
            None => modes_of(toks.drop_last()),
        }
    }
}

/// Whether `v[lo..hi]` ends in `Hz`.
fn ends_in_hz(v: &Vec<char>, lo: usize, hi: usize) -> (r: bool)
    requires
        lo <= hi <= v.len(),
    ensures
        r == ends_with(v@.subrange(lo as int, hi as int), "Hz"@),
        r ==> hi - lo >= 2,
{
    proof {
        reveal_strlit("Hz");
    }
    let r = hi - lo >= 2 && v[hi - 2] == 'H' && v[hi - 1] == 'z';
    proof {
        let s = v@.subrange(lo as int, hi as int);
        assert("Hz"@ =~= seq!['H', 'z']);
        if s.len() >= 2 {
            assert(s.skip(s.len() - 2) =~= seq![v@[hi - 2], v@[hi - 1]]);
        }
    }
    r
}

fn mode_of_chars(v: &Vec<char>) -> (r: Option<DisplayMode>)
    ensures
        r == mode_token(v@),
{
    let n = v.len();
    proof {
        assert(v@.subrange(0, n as int) =~= v@);
    }
    let at = match find_char_in(v, 0, n, '@') {
        Some(p) => p,
        None => return None,
    };
    proof {
        lemma_nested(v@, 0, n as int, at as int, n as int);
    }
    let x = match find_char_in(v, 0, at, 'x') {
        Some(p) => p,
        None => return None,
    };
    proof {
        lemma_nested(v@, 0, at as int, x as int, at as int);
    }
    proof {
        let res = v@.take(at as int);
        assert(res == v@.subrange(0, at as int));
        assert(res.take(x as int) == v@.subrange(0, x as int));
        assert(res.skip(x + 1) == v@.subrange(x + 1, at as int));
        assert(v@.skip(at + 1) == v@.subrange(at + 1, n as int));
    }
    let w = read_unsigned(v, 0, x, 0xffff);
    let h = read_unsigned(v, x + 1, at, 0xffff);
    if !ends_in_hz(v, at + 1, n) {
        return None;
    }
    let rate = read_decimal(v, at + 1, n - 2);
    match (w, h, rate) {
        (Some(w), Some(h), Some(rate)) => Some(
            DisplayMode { width: w as u16, height: h as u16, refresh_rate: rate },
        ),
        _ => None,
    }
}

/// The modes in a list of tokens such as `"2560x1600@240.00Hz 2560x1600@60.00Hz"`;
/// tokens of another shape are skipped.
pub fn parse_available_modes(modes_str: &str) -> (r: Vec<DisplayMode>)
    ensures
        r@ == modes_of(words(modes_str@)),
{
    let toks = words_in(&chars_of(modes_str));
    modes_of_words(&toks)
}

fn modes_of_words(toks: &Vec<Vec<char>>) -> (r: Vec<DisplayMode>)
    ensures
        r@ == modes_of(views(toks@)),
{
    let ghost tv = views(toks@);
    let mut r: Vec<DisplayMode> = Vec::new();
    let mut i: usize = 0;
    while i < toks.len()
        invariant
            i <= toks.len(),
            tv == views(toks@),
            r@ == modes_of(tv.take(i as int)),
        decreases toks.len() - i,
    {
        assert(tv.take(i + 1).drop_last() =~= tv.take(i as int));
        assert(tv.take(i + 1).last() == toks@[i as int]@);
        match mode_of_chars(&toks[i]) {
            Some(m) => r.push(m),
            None => {},
        }
        i += 1;
    }
    assert(tv.take(toks.len() as int) =~= tv);
    r
}

/// The modes listed for one monitor.
#[derive(Clone, Debug)]
pub struct MonitorModes {
    pub name: String,
    pub modes: Vec<DisplayMode>,
}

pub open spec fn monitor_tag() -> Seq<char> {
    "Monitor "@
}

pub open spec fn modes_tag() -> Seq<char> {
    "availableModes:"@
}

/// The monitor that a trimmed header line such as `"Monitor eDP-1 (ID 0):"`
/// opens, if it is one.
pub open spec fn header_name(line: Seq<char>) -> Option<Seq<char>> {
    if starts_with(line, monitor_tag()) && contains(line, "(ID"@) && words(line).len() > 1 {
        Some(words(line)[1])
    } else {
        None
    }
}

/// The state after the first `n` lines of a monitor report: the monitor in
/// force, and one entry for each `availableModes:` line under a monitor.
pub open spec fn monitor_scan(ls: Seq<Seq<char>>, n: int) -> (
    Option<Seq<char>>,
    Seq<(Seq<char>, Seq<DisplayMode>)>,
)
    decreases n,
{
    if n <= 0 {
        (None, Seq::empty())
    } else {
        let (cur, es) = monitor_scan(ls, n - 1);
        let line = trim(ls[n - 1]);
        let cur2 = if header_name(line) is Some {
            header_name(line)
        } else {
            cur
        };
        if starts_with(line, modes_tag()) && cur2 is Some {
            (cur2, es.push((cur2->0, modes_of(words(line.skip(modes_tag().len() as int))))))
        } else {
            (cur2, es)
        }
    }
}

/// The entries of a whole monitor report.
pub open spec fn monitor_report(text: Seq<char>) -> Seq<(Seq<char>, Seq<DisplayMode>)> {
    monitor_scan(lines(text), lines(text).len() as int).1
}

pub open spec fn entry_view(e: MonitorModes) -> (Seq<char>, Seq<DisplayMode>) {
    (e.name@, e.modes@)
}

fn header_of_chars(v: &Vec<char>, lo: usize, hi: usize) -> (r: Option<Vec<char>>)
    requires
        lo <= hi <= v.len(),
    ensures
        match (r, header_name(v@.subrange(lo as int, hi as int))) {
            (Some(a), Some(b)) => a@ == b,
            (None, None) => true,
            _ => false,
        },
{
    if !starts_with_in(v, lo, hi, &chars_of("Monitor ")) || !contains_in(
        v,
        lo,
        hi,
        &chars_of("(ID"),
    ) {
        return None;
    }
    let line = crate::text::copy_range(v, lo, hi);
    let ws = words_in(&line);
    if ws.len() > 1 {
        let ghost wv = views(ws@);
        assert(ws@[1]@ == wv[1]);
        Some(crate::text::copy_range(&ws[1], 0, ws[1].len()))
    } else {
        None
    }
}

/// Reads a monitor report (`hyprctl monitors all`): for each
/// `availableModes:` line, the monitor whose header came last and the modes
/// listed, in report order.
pub fn parse_monitor_modes(report: &str) -> (r: Vec<MonitorModes>)
    ensures
        r@.map_values(|e: MonitorModes| entry_view(e)) == monitor_report(report@),
{
    let text = chars_of(report);
    let ls = lines_in(&text);
    let ghost lsv = views(ls@);
    let mut cur: Option<Vec<char>> = None;
    let mut out: Vec<MonitorModes> = Vec::new();
    let tag = chars_of("availableModes:");
    let mut i: usize = 0;
    while i < ls.len()
        invariant
            i <= ls.len(),
            lsv == views(ls@),
            lsv == lines(text@),
            text@ == report@,
            tag@ == modes_tag(),
            match (cur, monitor_scan(lsv, i as int).0) {
                (Some(a), Some(b)) => a@ == b,
                (None, None) => true,
                _ => false,
            },
            out@.map_values(|e: MonitorModes| entry_view(e)) == monitor_scan(lsv, i as int).1,
        decreases ls.len() - i,
    {
        let line = &ls[i];
        assert(line@ == lsv[i as int]);
        let (a, b) = trim_range(line, 0, line.len());
        assert(line@.subrange(0, line@.len() as int) =~= line@);
        match header_of_chars(line, a, b) {
            Some(h) => {
                cur = Some(h);
            },
            None => {},
        }
        let ghost es = out@.map_values(|e: MonitorModes| entry_view(e));
        if starts_with_in(line, a, b, &tag) {
            match &cur {
                Some(name) => {
                    let rest = crate::text::copy_range(line, a + tag.len(), b);
                    proof {
                        lemma_nested(line@, a as int, b as int, tag.len() as int, b - a);
                    }
                    let toks = words_in(&rest);
                    let modes = modes_of_words(&toks);
                    let entry = MonitorModes { name: string_of(name), modes };
                    out.push(entry);
                    assert(out@.map_values(|e: MonitorModes| entry_view(e)) =~= es.push(
                        entry_view(entry),
                    ));
                },
                None => {},
            }
        }
        i += 1;
    }
    out
}

/// The modes of the last entry for monitor `name`, or none.
pub open spec fn lookup_modes(es: Seq<(Seq<char>, Seq<DisplayMode>)>, name: Seq<char>) -> Seq<
    DisplayMode,
>
    decreases es.len(),
{
    if es.len() == 0 {
        Seq::empty()
    } else if es.last().0 == name {
        es.last().1
    } else {
        lookup_modes(es.drop_last(), name)
    }
}

/// The modes that a monitor report lists for monitor `name`; a later listing
/// replaces an earlier one, and a monitor not listed has none.
pub fn modes_for_monitor(table: &Vec<MonitorModes>, name: &str) -> (r: Vec<DisplayMode>)
    ensures
        r@ == lookup_modes(table@.map_values(|e: MonitorModes| entry_view(e)), name@),
{
    let ghost es = table@.map_values(|e: MonitorModes| entry_view(e));
    let target = chars_of(name);
    let mut i = table.len();
    assert(es.len() == table.len());
    assert(es.take(i as int) =~= es);
    while i > 0
        invariant
            i <= table.len(),
            es == table@.map_values(|e: MonitorModes| entry_view(e)),
            es.len() == table.len(),
            target@ == name@,
            lookup_modes(es, name@) == lookup_modes(es.take(i as int), name@),
        decreases i,
    {
        let e = &table[i - 1];
        assert(es.take(i as int).drop_last() =~= es.take(i - 1));
        assert(es[i - 1] == entry_view(table@[i - 1]));
        assert(es.take(i as int).last() == entry_view(*e));
        let en = chars_of(e.name.as_str());
        assert(en@ == es.take(i as int).last().0);
        if same_chars(&en, &target) {
            let ghost t = es.take(i as int);
            assert(t.len() > 0);
            assert(lookup_modes(t, name@) == t.last().1);
            assert(t.last().1 == e.modes@);
            let mut r: Vec<DisplayMode> = Vec::new();
            let mut j: usize = 0;
            while j < e.modes.len()
                invariant
                    j <= e.modes.len(),
                    r@ == e.modes@.take(j as int),
                decreases e.modes.len() - j,
            {
                r.push(e.modes[j]);
                j += 1;
                assert(r@ =~= e.modes@.take(j as int));
            }
            assert(e.modes@.take(e.modes.len() as int) =~= e.modes@);
            return r;
        }
        assert(lookup_modes(es.take(i as int), name@) == lookup_modes(es.take(i - 1), name@));
        i -= 1;
    }
    Vec::new()
}

/// The modes of two token lists one after the other are those of each.
pub proof fn lemma_modes_of_append(a: Seq<Seq<char>>, b: Seq<Seq<char>>)
    ensures
        modes_of(a + b) == modes_of(a) + modes_of(b),
    decreases b.len(),
{
    if b.len() == 0 {
        assert(a + b =~= a);
        assert(modes_of(a) + modes_of(b) =~= modes_of(a));
    } else {
        lemma_modes_of_append(a, b.drop_last());
        assert((a + b).drop_last() =~= a + b.drop_last());
        assert((a + b).last() == b.last());
        match mode_token(b.last()) {
            Some(m) => {
                assert(modes_of(a) + modes_of(b) =~= (modes_of(a) + modes_of(b.drop_last())).push(m));
            },
            None => {},
        }
    }
}

/// A token that does not read as `<uint>x<uint>@<decimal>Hz` is left out and
/// changes nothing of what the tokens around it give.
pub proof fn lemma_bad_token_dropped(before: Seq<Seq<char>>, tok: Seq<char>, after: Seq<Seq<char>>)
    requires
        mode_token(tok) is None,
    ensures
        modes_of(before + seq![tok] + after) == modes_of(before) + modes_of(after),
{
    lemma_modes_of_append(before + seq![tok], after);
    lemma_modes_of_append(before, seq![tok]);
    assert(seq![tok].drop_last() =~= Seq::<Seq<char>>::empty());
    assert(modes_of(Seq::<Seq<char>>::empty()) =~= Seq::<DisplayMode>::empty());
    assert(seq![tok].last() == tok);
    assert(modes_of(seq![tok]) =~= Seq::<DisplayMode>::empty());
    assert(modes_of(before) + Seq::<DisplayMode>::empty() =~= modes_of(before));
}

/// A token that reads as a mode gives that mode, in its place among the others.
pub proof fn lemma_good_token_kept(before: Seq<Seq<char>>, tok: Seq<char>, after: Seq<Seq<char>>)
    requires
        mode_token(tok) is Some,
    ensures
        modes_of(before + seq![tok] + after) == modes_of(before).push(mode_token(tok)->0) + modes_of(
            after,
        ),
{
    lemma_modes_of_append(before + seq![tok], after);
    lemma_modes_of_append(before, seq![tok]);
    assert(seq![tok].drop_last() =~= Seq::<Seq<char>>::empty());
    assert(modes_of(Seq::<Seq<char>>::empty()) =~= Seq::<DisplayMode>::empty());
    assert(seq![tok].last() == tok);
    assert(modes_of(seq![tok]) =~= seq![mode_token(tok)->0]);
    assert(modes_of(before) + seq![mode_token(tok)->0] =~= modes_of(before).push(mode_token(tok)->0));
}

} // verus!
