//! The compositor's configuration as the settings pages see it: key
//! bindings, variables, wallpapers, and the text written back for them.

use vstd::prelude::*;
use vstd::multiset::{lemma_multiset_empty_len, Multiset};
use vstd::seq_lib::{group_to_multiset_ensures, to_multiset_build, to_multiset_insert};
use crate::text::{
    chars_of, copy_range, ends_with, is_space, lead_end, lemma_lex_total, lemma_lex_trans,
    lemma_split_run, lemma_trim_after_space, lemma_trim_unchanged, lex_le, lex_le_exec, push_all,
    split_in, split_on, string_of, string_views, strip_start, tokens, tokens_in, trim, trim_range,
    views, CharClass,
};

verus! {

/// A key binding: modifiers, key, dispatcher and its parameters.
#[derive(Clone, Debug)]
pub struct Keybind {
    pub modifiers: Vec<String>,
    pub key: String,
    pub dispatcher: String,
    pub params: String,
}

/// `ps` joined with `sep` between each two (`[&str]::join`).
pub open spec fn join(ps: Seq<Seq<char>>, sep: Seq<char>) -> Seq<char>
    decreases ps.len(),
{
    if ps.len() == 0 {
        Seq::empty()
    } else if ps.len() == 1 {
        ps[0]
    } else {
        join(ps.drop_last(), sep) + sep + ps.last()
    }
}

pub open spec fn trimmed_all(ps: Seq<Seq<char>>) -> Seq<Seq<char>> {
    ps.map_values(|p: Seq<char>| trim(p))
}

/// What a binding's arguments `MODS, KEY, dispatcher, params...` hold: the
/// comma-separated fields trimmed; at least three are needed; the modifiers
/// are split at white space and underscores; the fields after the third are
/// the parameters, joined again with `, `.
pub open spec fn bind_fields(s: Seq<char>) -> Option<(Seq<Seq<char>>, Seq<char>, Seq<char>, Seq<char>)> {
    let ps = trimmed_all(split_on(s, ','));
    if ps.len() < 3 {
        None
    } else {
        Some(
            (
                tokens(ps[0], CharClass::SpaceOrUnderscore),
                ps[1],
                ps[2],
                if ps.len() > 3 {
                    join(ps.skip(3), ", "@)
                } else {
                    Seq::empty()
                },
            ),
        )
    }
}

pub open spec fn keybind_is(k: Keybind, f: (Seq<Seq<char>>, Seq<char>, Seq<char>, Seq<char>)) -> bool {
    &&& string_views(k.modifiers@) == f.0
    &&& k.key@ == f.1
    &&& k.dispatcher@ == f.2
    &&& k.params@ == f.3
}

/// `ps[from..]` joined with `sep`.
fn join_from(ps: &Vec<Vec<char>>, from: usize, sep: &Vec<char>) -> (r: Vec<char>)
    requires
        from <= ps.len(),
    ensures
        r@ == join(views(ps@).skip(from as int), sep@),
{
    let ghost pv = views(ps@).skip(from as int);
    let mut out: Vec<char> = Vec::new();
    let mut i = from;
    assert(pv.take(0) =~= Seq::<Seq<char>>::empty());
    while i < ps.len()
        invariant
            from <= i <= ps.len(),
            pv == views(ps@).skip(from as int),
            out@ == join(pv.take(i - from), sep@),
        decreases ps.len() - i,
    {
        let ghost before = out@;
        assert(pv.take(i - from + 1).drop_last() =~= pv.take(i - from));
        assert(pv.take(i - from + 1).last() == ps@[i as int]@);
        if i > from {
            push_all(&mut out, sep);
        }
        push_all(&mut out, &ps[i]);
        if i == from {
            assert(out@ =~= ps@[i as int]@);
        }
        i += 1;
    }
    assert(pv.take(ps.len() - from) =~= pv);
    out
}

fn strings_of(ps: &Vec<Vec<char>>) -> (r: Vec<String>)
    ensures
        string_views(r@) == views(ps@),
{
    let mut out: Vec<String> = Vec::new();
    let mut i: usize = 0;
    while i < ps.len()
        invariant
            i <= ps.len(),
            out.len() == i,
            string_views(out@) == views(ps@).take(i as int),
        decreases ps.len() - i,
    {
        let s = string_of(&ps[i]);
        let ghost before = out@;
        out.push(s);
        assert(views(ps@)[i as int] == ps@[i as int]@);
        assert(forall|j: int| 0 <= j < i ==> string_views(out@)[j] == string_views(before)[j]);
        assert(string_views(out@) =~= views(ps@).take(i + 1));
        i += 1;
    }
    assert(views(ps@).take(ps.len() as int) =~= views(ps@));
    out
}

/// Each of `ps`, trimmed.
fn trim_each(ps: &Vec<Vec<char>>) -> (r: Vec<Vec<char>>)
    ensures
        views(r@) == trimmed_all(views(ps@)),
{
    let mut out: Vec<Vec<char>> = Vec::new();
    let mut i: usize = 0;
    while i < ps.len()
        invariant
            i <= ps.len(),
            out.len() == i,
            views(out@) == trimmed_all(views(ps@)).take(i as int),
        decreases ps.len() - i,
    {
        let p = &ps[i];
        proof {
            assert(p@.subrange(0, p@.len() as int) =~= p@);
        }
        let (a, b) = trim_range(p, 0, p.len());
        let t = copy_range(p, a, b);
        let ghost before = out@;
        out.push(t);
        assert(views(ps@)[i as int] == ps@[i as int]@);
        assert(trimmed_all(views(ps@))[i as int] == trim(ps@[i as int]@));
        assert(forall|j: int| 0 <= j < i ==> views(out@)[j] == views(before)[j]);
        assert(views(out@) =~= trimmed_all(views(ps@)).take(i + 1));
        i += 1;
    }
    assert(trimmed_all(views(ps@)).take(ps.len() as int) =~= trimmed_all(views(ps@)));
    out
}

/// Reads one binding's arguments, such as `"SUPER, Q, exec, kitty"`; a
/// binding of fewer than three fields gives none.
pub fn parse_bind(bind: &str) -> (r: Option<Keybind>)
    ensures
        match (r, bind_fields(bind@)) {
            (Some(k), Some(f)) => keybind_is(k, f),
            (None, None) => true,
            _ => false,
        },
{
    let ps = trim_each(&split_in(&chars_of(bind), ','));
    let ghost pv = views(ps@);
    if ps.len() < 3 {
        return None;
    }
    assert(ps@[0]@ == pv[0] && ps@[1]@ == pv[1] && ps@[2]@ == pv[2]);
    let mods = tokens_in(&ps[0], CharClass::SpaceOrUnderscore);
    let params = if ps.len() > 3 {
        join_from(&ps, 3, &chars_of(", "))
    } else {
        Vec::new()
    };
    Some(
        Keybind {
            modifiers: strings_of(&mods),
            key: string_of(&ps[1]),
            dispatcher: string_of(&ps[2]),
            params: string_of(&params),
        },
    )
}

/// The fields of the bindings among `bs`, in order, leaving out those of
/// fewer than three fields.
pub open spec fn binds_of(bs: Seq<Seq<char>>) -> Seq<(Seq<Seq<char>>, Seq<char>, Seq<char>, Seq<char>)>
    decreases bs.len(),
{
    if bs.len() == 0 {
        Seq::empty()
    } else {
        match bind_fields(bs.last()) {
            Some(f) => binds_of(bs.drop_last()).push(f),
            None => binds_of(bs.drop_last()),
        }
    }
}

pub open spec fn keybinds_are(
    ks: Seq<Keybind>,
    fs: Seq<(Seq<Seq<char>>, Seq<char>, Seq<char>, Seq<char>)>,
) -> bool {
    ks.len() == fs.len() && forall|i: int| 0 <= i < fs.len() ==> keybind_is(#[trigger] ks[i], fs[i])
}

/// The bindings among the given binding arguments, in order; those of fewer
/// than three fields are left out.
pub fn parse_binds(binds: &Vec<String>) -> (r: Vec<Keybind>)
    ensures
        keybinds_are(r@, binds_of(string_views(binds@))),
{
    let ghost bv = string_views(binds@);
    let mut out: Vec<Keybind> = Vec::new();
    let mut i: usize = 0;
    while i < binds.len()
        invariant
            i <= binds.len(),
            bv == string_views(binds@),
            keybinds_are(out@, binds_of(bv.take(i as int))),
        decreases binds.len() - i,
    {
        assert(bv.take(i + 1).drop_last() =~= bv.take(i as int));
        assert(bv.take(i + 1).last() == binds@[i as int]@);
        match parse_bind(binds[i].as_str()) {
            Some(k) => {
                let ghost before = out@;
                out.push(k);
                assert(forall|m: int| 0 <= m < before.len() ==> out@[m] == before[m]);
            },
            None => {},
        }
        i += 1;
    }
    assert(bv.take(binds.len() as int) =~= bv);
    out
}

fn chars_each(v: &Vec<String>) -> (r: Vec<Vec<char>>)
    ensures
        views(r@) == string_views(v@),
{
    let mut out: Vec<Vec<char>> = Vec::new();
    let mut i: usize = 0;
    while i < v.len()
        invariant
            i <= v.len(),
            out.len() == i,
            views(out@) == string_views(v@).take(i as int),
        decreases v.len() - i,
    {
        let c = chars_of(v[i].as_str());
        let ghost before = out@;
        out.push(c);
        assert(forall|j: int| 0 <= j < i ==> views(out@)[j] == views(before)[j]);
        assert(views(out@) =~= string_views(v@).take(i + 1));
        i += 1;
    }
    assert(string_views(v@).take(v.len() as int) =~= string_views(v@));
    out
}

/// The arguments of a new binding, `MODS, KEY, dispatcher, params`: the key
/// and dispatcher are required; modifiers are joined with spaces, and left
/// out with their comma when there are none; the other fields are trimmed.
pub open spec fn bind_args(
    mods: Seq<Seq<char>>,
    key: Seq<char>,
    dispatcher: Seq<char>,
    params: Seq<char>,
) -> Result<Seq<char>, Seq<char>> {
    if trim(key).len() == 0 {
        Err("Key is required"@)
    } else if trim(dispatcher).len() == 0 {
        Err("Dispatcher is required"@)
    } else {
        let m = join(mods, " "@);
        let tail = trim(key) + ", "@ + trim(dispatcher) + ", "@ + trim(params);
        Ok(
            if m.len() == 0 {
                tail
            } else {
                m + ", "@ + tail
            },
        )
    }
}

pub open spec fn text_result(r: Result<String, String>, s: Result<Seq<char>, Seq<char>>) -> bool {
    match (r, s) {
        (Ok(a), Ok(b)) => a@ == b,
        (Err(a), Err(b)) => a@ == b,
        _ => false,
    }
}

fn trimmed(s: &str) -> (r: Vec<char>)
    ensures
        r@ == trim(s@),
{
    let v = chars_of(s);
    proof {
        assert(v@.subrange(0, v@.len() as int) =~= v@);
    }
    let (a, b) = trim_range(&v, 0, v.len());
    copy_range(&v, a, b)
}

/// Formats the arguments of a binding to add, or says which required field
/// is missing.
pub fn bind_arguments(modifiers: &Vec<String>, key: &str, dispatcher: &str, params: &str) -> (r:
    Result<String, String>)
    ensures
        text_result(r, bind_args(string_views(modifiers@), key@, dispatcher@, params@)),
{
    let k = trimmed(key);
    if k.len() == 0 {
        return Err(String::from_str("Key is required"));
    }
    let d = trimmed(dispatcher);
    if d.len() == 0 {
        return Err(String::from_str("Dispatcher is required"));
    }
    let p = trimmed(params);
    let ms = chars_each(modifiers);
    let m = join_from(&ms, 0, &chars_of(" "));
    assert(views(ms@).skip(0) =~= views(ms@));
    let comma = chars_of(", ");
    let mut out: Vec<char> = Vec::new();
    if m.len() > 0 {
        push_all(&mut out, &m);
        push_all(&mut out, &comma);
    }
    let ghost head = out@;
    push_all(&mut out, &k);
    push_all(&mut out, &comma);
    push_all(&mut out, &d);
    push_all(&mut out, &comma);
    push_all(&mut out, &p);
    assert(out@ =~= head + (k@ + ", "@ + d@ + ", "@ + p@));
    proof {
        if m.len() == 0 {
            assert(out@ =~= k@ + ", "@ + d@ + ", "@ + p@);
        } else {
            assert(out@ =~= m@ + ", "@ + (k@ + ", "@ + d@ + ", "@ + p@));
        }
    }
    Ok(string_of(&out))
}

/// Whether a piece of text holds no comma.
pub open spec fn comma_free(s: Seq<char>) -> bool {
    forall|i: int| 0 <= i < s.len() ==> s[i] != ','
}

/// Whether text neither begins nor ends with white space.
pub open spec fn trimmed_text(s: Seq<char>) -> bool {
    s.len() == 0 || (!is_space(s[0]) && !is_space(s.last()))
}

/// A binding written by `bind_arguments` with at least one modifier reads
/// back through `parse_bind` with the same key, dispatcher and parameters,
/// and with the words of the joined modifiers as its modifiers; no field may
/// hold a comma, and the fields are taken as trimmed.
pub proof fn lemma_bind_round_trip(
    mods: Seq<Seq<char>>,
    key: Seq<char>,
    dispatcher: Seq<char>,
    params: Seq<char>,
)
    requires
        join(mods, " "@).len() > 0,
        comma_free(join(mods, " "@)),
        comma_free(key),
        comma_free(dispatcher),
        comma_free(params),
        key.len() > 0,
        dispatcher.len() > 0,
        trimmed_text(key),
        trimmed_text(dispatcher),
        trimmed_text(params),
    ensures
        bind_args(mods, key, dispatcher, params) is Ok,
        bind_fields(bind_args(mods, key, dispatcher, params)->Ok_0) == Some(
            (
                tokens(trim(join(mods, " "@)), CharClass::SpaceOrUnderscore),
                key,
                dispatcher,
                params,
            ),
        ),
{
    reveal_strlit(", ");
    lemma_trim_unchanged(key);
    lemma_trim_unchanged(dispatcher);
    lemma_trim_unchanged(params);
    let m = join(mods, " "@);
    let cs = seq![',', ' '];
    assert(", "@ =~= cs);
    let t = m + cs + key + cs + dispatcher + cs + params;
    let text = bind_args(mods, key, dispatcher, params)->Ok_0;
    assert(text =~= t);
    let a = m.len() as int;
    let b = a + 2 + key.len();
    let c = b + 2 + dispatcher.len();
    let n = t.len() as int;
    let sk = seq![' '] + key;
    let sd = seq![' '] + dispatcher;
    let sp = seq![' '] + params;
    assert forall|i: int| 0 <= i < a implies #[trigger] t[i] != ',' by {
        assert(t[i] == m[i]);
    }
    assert forall|i: int| a + 1 <= i < b implies #[trigger] t[i] != ',' by {
        if i > a + 1 {
            assert(t[i] == key[i - a - 2]);
        }
    }
    assert forall|i: int| b + 1 <= i < c implies #[trigger] t[i] != ',' by {
        if i > b + 1 {
            assert(t[i] == dispatcher[i - b - 2]);
        }
    }
    assert forall|i: int| c + 1 <= i < n implies #[trigger] t[i] != ',' by {
        if i > c + 1 {
            assert(t[i] == params[i - c - 2]);
        }
    }
    lemma_split_run(t, ',', 0, a, Seq::empty());
    assert(Seq::<char>::empty() + t.subrange(0, a) =~= m);
    assert(t[a] == ',');
    lemma_split_run(t, ',', a + 1, b, Seq::empty());
    assert(Seq::<char>::empty() + t.subrange(a + 1, b) =~= sk);
    assert(t[b] == ',');
    lemma_split_run(t, ',', b + 1, c, Seq::empty());
    assert(Seq::<char>::empty() + t.subrange(b + 1, c) =~= sd);
    assert(t[c] == ',');
    lemma_split_run(t, ',', c + 1, n, Seq::empty());
    assert(Seq::<char>::empty() + t.subrange(c + 1, n) =~= sp);
    let parts = split_on(t, ',');
    assert(parts =~= seq![m, sk, sd, sp]);
    lemma_trim_after_space(key);
    lemma_trim_after_space(dispatcher);
    if params.len() > 0 {
        lemma_trim_after_space(params);
    } else {
        assert(sp =~= seq![' ']);
        assert(lead_end(sp, CharClass::Space, 1) == 1);
        assert(strip_start(sp, CharClass::Space) =~= Seq::<char>::empty());
        assert(trim(sp) =~= params);
    }
    let ps = trimmed_all(parts);
    assert(ps =~= seq![trim(m), key, dispatcher, params]);
    assert(ps.skip(3) =~= seq![params]);
}

/// Whether `char::is_alphanumeric` holds of a character (Unicode's
/// alphabetic or numeric characters).
pub uninterp spec fn alphanumeric(c: char) -> bool;

/// Relies on `char::is_alphanumeric`, whose result depends on the character alone.
#[verifier::external_body]
fn is_alphanumeric(c: char) -> (r: bool)
    ensures
        r == alphanumeric(c),
{
    c.is_alphanumeric()
}

/// Whether a character may stand in a variable's name.
pub open spec fn name_char(c: char) -> bool {
    alphanumeric(c) || c == '_'
}

/// The verdict on a variable's name, from whether all its characters are
/// letters, digits or underscores and whether it is empty.
pub open spec fn name_verdict(all_allowed: bool, is_empty: bool) -> Result<(), Seq<char>> {
    if !all_allowed {
        Err("Variable name must contain only letters, numbers, and underscores"@)
    } else if is_empty {
        Err("Variable name cannot be empty"@)
    } else {
        Ok(())
    }
}

pub open spec fn unit_result(r: Result<(), String>, s: Result<(), Seq<char>>) -> bool {
    match (r, s) {
        (Ok(_), Ok(_)) => true,
        (Err(a), Err(b)) => a@ == b,
        _ => false,
    }
}

/// The verdict on a variable's name, given whether all its characters are
/// allowed and whether it is empty: a bad character is reported first.
pub fn variable_name_verdict(all_allowed: bool, is_empty: bool) -> (r: Result<(), String>)
    ensures
        unit_result(r, name_verdict(all_allowed, is_empty)),
{
    if !all_allowed {
        Err(String::from_str("Variable name must contain only letters, numbers, and underscores"))
    } else if is_empty {
        Err(String::from_str("Variable name cannot be empty"))
    } else {
        Ok(())
    }
}

/// Checks a new variable's name: only letters, digits and underscores, and
/// not empty.
pub fn validate_variable_name(name: &str) -> (r: Result<(), String>)
    ensures
        unit_result(
            r,
            name_verdict(
                forall|i: int| 0 <= i < name@.len() ==> name_char(#[trigger] name@[i]),
                name@.len() == 0,
            ),
        ),
{
    let v = chars_of(name);
    let mut ok = true;
    let mut i: usize = 0;
    while i < v.len()
        invariant
            i <= v.len(),
            v@ == name@,
            ok == forall|k: int| 0 <= k < i ==> name_char(#[trigger] v@[k]),
        decreases v.len() - i,
    {
        let c = v[i];
        ok = ok && (is_alphanumeric(c) || c == '_');
        i += 1;
    }
    variable_name_verdict(ok, v.len() == 0)
}

/// A variable of the configuration.
#[derive(Clone, Debug)]
pub struct Variable {
    pub name: String,
    pub value: String,
}

pub open spec fn variables_ordered(vs: Seq<Variable>) -> bool {
    forall|i: int, j: int| 0 <= i < j < vs.len() ==> lex_le((#[trigger] vs[i]).name@, (#[trigger] vs[j]).name@)
}

/// Puts variables in order of name.
pub fn sort_variables(variables: Vec<Variable>) -> (r: Vec<Variable>)
    ensures
        variables_ordered(r@),
        r@.to_multiset() == variables@.to_multiset(),
{
    broadcast use group_to_multiset_ensures, lemma_multiset_empty_len;

    let mut rest = variables;
    let mut out: Vec<Variable> = Vec::new();
    assert(out@.to_multiset().len() == 0);
    assert(out@.to_multiset().add(rest@.to_multiset()) =~= variables@.to_multiset());
    while rest.len() > 0
        invariant
            variables_ordered(out@),
            out@.to_multiset().add(rest@.to_multiset()) == variables@.to_multiset(),
        decreases rest.len(),
    {
        let ghost before_rest = rest@;
        let x = rest.pop().unwrap();
        assert(before_rest == rest@.push(x));
        let xn = chars_of(x.name.as_str());
        let mut p: usize = 0;
        while p < out.len() && !lex_le_exec(&xn, &chars_of(out[p].name.as_str()))
            invariant
                p <= out.len(),
                xn@ == x.name@,
                variables_ordered(out@),
                out@.to_multiset().add(before_rest.to_multiset()) == variables@.to_multiset(),
                before_rest == rest@.push(x),
                forall|m: int| 0 <= m < p ==> !lex_le(x.name@, (#[trigger] out@[m]).name@),
            decreases out.len() - p,
        {
            p += 1;
        }
        let ghost old_out = out@;
        out.insert(p, x);
        assert forall|i: int, j: int| 0 <= i < j < out@.len() implies lex_le(
            (#[trigger] out@[i]).name@,
            (#[trigger] out@[j]).name@,
        ) by {
            if j < p {
                assert(out@[i] == old_out[i] && out@[j] == old_out[j]);
            } else if j == p {
                assert(out@[i] == old_out[i]);
                lemma_lex_total(x.name@, old_out[i].name@, 0);
            } else if i < p {
                assert(out@[i] == old_out[i] && out@[j] == old_out[j - 1]);
            } else if i == p {
                assert(out@[j] == old_out[j - 1]);
                if j - 1 > p {
                    lemma_lex_trans(x.name@, old_out[p as int].name@, old_out[j - 1].name@, 0);
                }
            } else {
                assert(out@[i] == old_out[i - 1] && out@[j] == old_out[j - 1]);
            }
        }
        assert(out@ == old_out.insert(p as int, x));
        proof {
            to_multiset_insert(old_out, p as int, x);
            to_multiset_build(rest@, x);
        }
        assert(out@.to_multiset().add(rest@.to_multiset()) =~= old_out.to_multiset().add(
            before_rest.to_multiset(),
        ));
    }
    assert(rest@.to_multiset().len() == 0);
    assert(rest@.to_multiset() =~= Multiset::empty());
    assert(out@.to_multiset().add(rest@.to_multiset()) =~= out@.to_multiset());
    out
}

/// A wallpaper assignment: which monitor, which image, how it is fitted.
#[derive(Clone, Debug)]
pub struct Wallpaper {
    pub monitor: String,
    pub path: String,
    pub fit_mode: String,
}

/// The wallpapers of the wallpaper daemon's configuration.
#[derive(Clone, Debug)]
pub struct HyprpaperConfig {
    pub wallpapers: Vec<Wallpaper>,
}

pub open spec fn text_or(v: Option<String>, default: Seq<char>) -> Seq<char> {
    match v {
        Some(s) => s@,
        None => default,
    }
}

/// The wallpaper that one `wallpaper` block of the configuration describes:
/// no monitor means every monitor, the fit mode is `cover` unless given,
/// and a block without an image path gives none.
pub fn wallpaper_entry(monitor: Option<String>, path: Option<String>, fit_mode: Option<String>) -> (r:
    Option<Wallpaper>)
    ensures
        match r {
            Some(w) => text_or(path, Seq::empty()).len() > 0 && w.path@ == text_or(
                path,
                Seq::empty(),
            ) && w.monitor@ == text_or(monitor, Seq::empty()) && w.fit_mode@ == text_or(
                fit_mode,
                "cover"@,
            ),
            None => text_or(path, Seq::empty()).len() == 0,
        },
{
    let path = match path {
        Some(p) => p,
        None => String::new(),
    };
    if path.as_str().is_empty() {
        return None;
    }
    let monitor = match monitor {
        Some(m) => m,
        None => String::new(),
    };
    let fit_mode = match fit_mode {
        Some(f) => f,
        None => String::from_str("cover"),
    };
    Some(Wallpaper { monitor, path, fit_mode })
}

pub open spec fn fit_or_cover(fit_mode: Option<&str>) -> Seq<char> {
    match fit_mode {
        Some(f) => f@,
        None => "cover"@,
    }
}

/// The body of a `wallpaper` block: monitor and path trimmed, one field a line.
pub open spec fn wallpaper_body(monitor: Seq<char>, path: Seq<char>, fit: Seq<char>) -> Seq<char> {
    "wallpaper {\n    monitor = "@ + trim(monitor) + "\n    path = "@ + trim(path)
        + "\n    fit_mode = "@ + fit + "\n}\n"@
}

fn body_text(monitor: &str, path: &str, fit: &Vec<char>) -> (r: Vec<char>)
    ensures
        r@ == wallpaper_body(monitor@, path@, fit@),
{
    let mut out: Vec<char> = Vec::new();
    push_all(&mut out, &chars_of("wallpaper {\n    monitor = "));
    push_all(&mut out, &trimmed(monitor));
    push_all(&mut out, &chars_of("\n    path = "));
    push_all(&mut out, &trimmed(path));
    push_all(&mut out, &chars_of("\n    fit_mode = "));
    push_all(&mut out, fit);
    push_all(&mut out, &chars_of("\n}\n"));
    out
}

fn fit_chars(fit_mode: Option<&str>) -> (r: Vec<char>)
    ensures
        r@ == fit_or_cover(fit_mode),
{
    match fit_mode {
        Some(f) => chars_of(f),
        None => chars_of("cover"),
    }
}

/// A path that is blank once trimmed is refused.
pub open spec fn path_error() -> Seq<char> {
    "Path cannot be empty"@
}

/// The block that adds a wallpaper to the daemon's configuration, preceded
/// by a blank line; the path is required.
pub fn wallpaper_block(monitor: &str, path: &str, fit_mode: Option<&str>) -> (r: Result<
    String,
    String,
>)
    ensures
        text_result(
            r,
            if trim(path@).len() == 0 {
                Err(path_error())
            } else {
                Ok(seq!['\n'] + wallpaper_body(monitor@, path@, fit_or_cover(fit_mode)))
            },
        ),
{
    if trimmed(path).len() == 0 {
        return Err(String::from_str("Path cannot be empty"));
    }
    let mut out: Vec<char> = Vec::new();
    out.push('\n');
    push_all(&mut out, &body_text(monitor, path, &fit_chars(fit_mode)));
    Ok(string_of(&out))
}

/// What replacing every wallpaper writes: the daemon's whole configuration,
/// one block, and the command that tells the running daemon
/// (`hyprctl hyprpaper wallpaper '<monitor>, <path>, <fit>'`).
pub open spec fn replacement(monitor: Seq<char>, path: Seq<char>, fit: Seq<char>) -> (Seq<char>, Seq<char>) {
    (
        wallpaper_body(monitor, path, fit),
        "hyprctl hyprpaper wallpaper '"@ + trim(monitor) + ", "@ + trim(path) + ", "@ + fit + "'"@,
    )
}

/// The configuration file and the daemon command that replace every
/// wallpaper with one; the path is required.
pub fn wallpaper_replacement(monitor: &str, path: &str, fit_mode: Option<&str>) -> (r: Result<
    (String, String),
    String,
>)
    ensures
        match r {
            Ok((file, command)) => trim(path@).len() > 0 && (file@, command@) == replacement(
                monitor@,
                path@,
                fit_or_cover(fit_mode),
            ),
            Err(e) => trim(path@).len() == 0 && e@ == path_error(),
        },
{
    if trimmed(path).len() == 0 {
        return Err(String::from_str("Path cannot be empty"));
    }
    let fit = fit_chars(fit_mode);
    let file = body_text(monitor, path, &fit);
    let mut cmd: Vec<char> = Vec::new();
    push_all(&mut cmd, &chars_of("hyprctl hyprpaper wallpaper '"));
    push_all(&mut cmd, &trimmed(monitor));
    push_all(&mut cmd, &chars_of(", "));
    push_all(&mut cmd, &trimmed(path));
    push_all(&mut cmd, &chars_of(", "));
    push_all(&mut cmd, &fit);
    push_all(&mut cmd, &chars_of("'"));
    Ok((string_of(&file), string_of(&cmd)))
}

/// Checks a wallpaper's path before it is changed: a blank path is refused.
pub fn validate_wallpaper_path(path: &str) -> (r: Result<(), String>)
    ensures
        unit_result(
            r,
            if trim(path@).len() == 0 {
                Err(path_error())
            } else {
                Ok(())
            },
        ),
{
    if trimmed(path).len() == 0 {
        Err(String::from_str("Path cannot be empty"))
    } else {
        Ok(())
    }
}

/// The arguments of the color generator for an image: `image <path>`, then
/// `--mode light` in light mode, then `--type <generator>`.
pub open spec fn matugen_args(image: Seq<char>, light: bool, generator: Seq<char>) -> Seq<Seq<char>> {
    seq!["image"@, image] + (if light {
        seq!["--mode"@, "light"@]
    } else {
        Seq::empty()
    }) + seq!["--type"@, generator]
}

/// The arguments with which to run the color generator.
pub fn matugen_arguments(image_path: &str, light_mode: bool, generator_type: &str) -> (r: Vec<
    String,
>)
    ensures
        string_views(r@) == matugen_args(image_path@, light_mode, generator_type@),
{
    let mut out: Vec<String> = Vec::new();
    out.push(String::from_str("image"));
    out.push(String::from_str(image_path));
    if light_mode {
        out.push(String::from_str("--mode"));
        out.push(String::from_str("light"));
    }
    out.push(String::from_str("--type"));
    out.push(String::from_str(generator_type));
    assert(string_views(out@) =~= matugen_args(image_path@, light_mode, generator_type@));
    out
}

/// The paths among `fs` that end in `.conf`, in order.
pub open spec fn conf_files(fs: Seq<Seq<char>>) -> Seq<Seq<char>>
    decreases fs.len(),
{
    if fs.len() == 0 {
        Seq::empty()
    } else if ends_with(fs.last(), ".conf"@) {
        conf_files(fs.drop_last()).push(fs.last())
    } else {
        conf_files(fs.drop_last())
    }
}

/// The configuration files among the files of the configuration folder:
/// those whose path ends in `.conf`, in the order given.
pub fn list_config_files(files: Vec<String>) -> (r: Vec<String>)
    ensures
        string_views(r@) == conf_files(string_views(files@)),
{
    let ghost fv = string_views(files@);
    let tag = chars_of(".conf");
    let mut out: Vec<String> = Vec::new();
    let mut i: usize = 0;
    while i < files.len()
        invariant
            i <= files.len(),
            fv == string_views(files@),
            tag@ == ".conf"@,
            string_views(out@) == conf_files(fv.take(i as int)),
        decreases files.len() - i,
    {
        assert(fv.take(i + 1).drop_last() =~= fv.take(i as int));
        assert(fv.take(i + 1).last() == files@[i as int]@);
        let v = chars_of(files[i].as_str());
        let keep = v.len() >= tag.len() && crate::text::occurs_in(&v, v.len() - tag.len(), v.len(), &tag);
        proof {
            if v.len() >= tag.len() {
                assert(v@.skip(v.len() - tag.len()) =~= v@.subrange(v.len() - tag.len(), v.len() as int));
            }
        }
        if keep {
            let ghost before = out@;
            out.push(string_of(&v));
            assert(string_views(out@) =~= string_views(before).push(v@));
        }
        i += 1;
    }
    assert(fv.take(files.len() as int) =~= fv);
    out
}

/// The base folder of the user's configuration: `XDG_CONFIG_HOME` when set,
/// else `.config` in the home folder (joined as `Path::join` does).
pub open spec fn config_base(xdg: Option<Seq<char>>, home: Option<Seq<char>>) -> Result<Seq<char>, Seq<char>> {
    match xdg {
        Some(x) => Ok(x),
        None => match home {
            Some(h) => Ok(
                if h.len() == 0 || h.last() == '/' {
                    h + ".config"@
                } else {
                    h + "/.config"@
                },
            ),
            None => Err("Could not determine home directory"@),
        },
    }
}

pub open spec fn opt_view(o: Option<&str>) -> Option<Seq<char>> {
    match o {
        Some(s) => Some(s@),
        None => None,
    }
}

/// Chooses the base folder of the user's configuration from the values of
/// `XDG_CONFIG_HOME` and `HOME` (`None` when unset).
pub fn config_base_dir(xdg_config_home: Option<&str>, home: Option<&str>) -> (r: Result<String, String>)
    ensures
        text_result(r, config_base(opt_view(xdg_config_home), opt_view(home))),
{
    match xdg_config_home {
        Some(x) => Ok(String::from_str(x)),
        None => match home {
            Some(h) => {
                let mut out = chars_of(h);
                if out.len() == 0 || out[out.len() - 1] == '/' {
                    push_all(&mut out, &chars_of(".config"));
                } else {
                    push_all(&mut out, &chars_of("/.config"));
                }
                Ok(string_of(&out))
            },
            None => Err(String::from_str("Could not determine home directory")),
        },
    }
}

} // verus!
