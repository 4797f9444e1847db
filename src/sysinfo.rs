//! Facts about the machine for the about page, each read from one file or
//! one tool's output; a fact that cannot be read is `Unknown`.

use vstd::prelude::*;
use vstd::arithmetic::div_mod::lemma_div_denominator;
use crate::number::{
    dec_text, decimal_text, digit_char, parse_decimal, parse_unsigned, read_decimal, read_unsigned,
    Decimal,
};
use crate::text::{
    chars_of, contains, contains_in, lemma_nested, lines, lines_in, push_all, same_chars, split_in,
    split_on, starts_with, starts_with_in, string_of, string_range, string_views, strip, trim,
    trim_range, views, words, words_in, CharClass,
};

verus! {

/// A snapshot of the machine's facts.
#[derive(Clone, Debug)]
pub struct SystemInfo {
    pub os: String,
    pub hostname: String,
    pub kernel: String,
    pub uptime: String,
    pub shell: String,
    pub hyprland_version: String,
    pub gpus: Vec<String>,
    pub ram_used: String,
    pub ram_total: String,
    pub disk_used: String,
    pub disk_total: String,
    pub cpu: String,
}

pub open spec fn unknown_text() -> Seq<char> {
    "Unknown"@
}

fn unknown() -> (r: String)
    ensures
        r@ == unknown_text(),
{
    String::from_str("Unknown")
}

/// The operating system's name: the first `PRETTY_NAME=` line of the OS
/// release file, without the prefix and the surrounding quotes.
pub open spec fn pretty_name(ls: Seq<Seq<char>>, i: int) -> Seq<char>
    decreases ls.len() - i,
{
    if i < 0 || i >= ls.len() {
        unknown_text()
    } else if starts_with(ls[i], "PRETTY_NAME="@) {
        strip(ls[i].skip(12), CharClass::Quote)
    } else {
        pretty_name(ls, i + 1)
    }
}

/// The operating system's name from the OS release file (`/etc/os-release`).
pub fn os_name(release: &str) -> (r: String)
    ensures
        r@ == pretty_name(lines(release@), 0),
{
    let ls = lines_in(&chars_of(release));
    let ghost lsv = views(ls@);
    let tag = chars_of("PRETTY_NAME=");
    let mut i: usize = 0;
    while i < ls.len()
        invariant
            i <= ls.len(),
            lsv == views(ls@),
            lsv == lines(release@),
            tag@ == "PRETTY_NAME="@,
            pretty_name(lsv, 0) == pretty_name(lsv, i as int),
        decreases ls.len() - i,
    {
        let line = &ls[i];
        assert(line@ == lsv[i as int]);
        proof {
            assert(line@.subrange(0, line@.len() as int) =~= line@);
            reveal_strlit("PRETTY_NAME=");
        }
        if starts_with_in(line, 0, line.len(), &tag) {
            proof {
                lemma_nested(line@, 0, line@.len() as int, 12, line@.len() as int);
            }
            let (a, b) = crate::text::strip_range(line, 12, line.len(), CharClass::Quote);
            return string_range(line, a, b);
        }
        i += 1;
    }
    unknown()
}

/// A tool's whole output trimmed, or `Unknown` when it could not be run or
/// its output was not text.
pub fn trimmed_or_unknown(output: Option<&str>) -> (r: String)
    ensures
        r@ == match output {
            Some(s) => trim(s@),
            None => unknown_text(),
        },
{
    match output {
        Some(s) => {
            let v = chars_of(s);
            proof {
                assert(v@.subrange(0, v@.len() as int) =~= v@);
            }
            let (a, b) = trim_range(&v, 0, v.len());
            string_range(&v, a, b)
        },
        None => unknown(),
    }
}

/// The first line of a tool's output, or `Unknown` when it could not be run,
/// its output was not text, or it printed nothing.
pub fn first_line_or_unknown(output: Option<&str>) -> (r: String)
    ensures
        r@ == match output {
            Some(s) => if lines(s@).len() > 0 {
                lines(s@)[0]
            } else {
                unknown_text()
            },
            None => unknown_text(),
        },
{
    match output {
        Some(s) => {
            let ls = lines_in(&chars_of(s));
            let ghost lsv = views(ls@);
            if ls.len() > 0 {
                assert(ls@[0]@ == lsv[0]);
                string_of(&ls[0])
            } else {
                unknown()
            }
        },
        None => unknown(),
    }
}

pub open spec fn pow10(k: nat) -> nat
    decreases k,
{
    if k == 0 {
        1
    } else {
        10 * pow10((k - 1) as nat)
    }
}

/// The whole seconds in a decimal number of seconds.
pub open spec fn whole_of(d: Decimal) -> nat {
    d.digits as nat / pow10(d.scale as nat)
}

/// `45m`, `3h 45m` or `2d 3h 45m` for a number of whole seconds.
pub open spec fn duration_text(secs: nat) -> Seq<char> {
    let days = secs / 86400;
    let hours = (secs % 86400) / 3600;
    let minutes = (secs % 3600) / 60;
    if days > 0 {
        dec_text(days) + "d "@ + dec_text(hours) + "h "@ + dec_text(minutes) + "m"@
    } else if hours > 0 {
        dec_text(hours) + "h "@ + dec_text(minutes) + "m"@
    } else {
        dec_text(minutes) + "m"@
    }
}

/// The uptime that the uptime file's first number gives, or `Unknown`.
pub open spec fn uptime_of(contents: Seq<char>) -> Seq<char> {
    let ws = words(contents);
    if ws.len() > 0 && parse_decimal(ws[0]) is Some {
        duration_text(whole_of(parse_decimal(ws[0])->0))
    } else {
        unknown_text()
    }
}

fn whole_seconds(d: Decimal) -> (r: u64)
    ensures
        r as nat == whole_of(d),
{
    let mut q = d.digits;
    let mut k: u32 = 0;
    assert(pow10(0) == 1);
    assert(d.digits as nat / 1 == d.digits as nat);
    while k < d.scale
        invariant
            k <= d.scale,
            q as nat == d.digits as nat / pow10(k as nat),
        decreases d.scale - k,
    {
        proof {
            assert(pow10(k as nat) > 0) by {
                lemma_pow10_positive(k as nat);
            }
            lemma_div_denominator(d.digits as int, pow10(k as nat) as int, 10);
            assert(pow10((k + 1) as nat) == 10 * pow10(k as nat));
        }
        q = q / 10;
        k += 1;
    }
    q
}

proof fn lemma_pow10_positive(k: nat)
    ensures
        pow10(k) > 0,
    decreases k,
{
    if k > 0 {
        lemma_pow10_positive((k - 1) as nat);
    }
}

/// Formats a number of whole seconds as `2d 3h 45m`, `3h 45m` or `45m`.
pub fn format_duration(secs: u64) -> (r: String)
    ensures
        r@ == duration_text(secs as nat),
{
    let days = secs / 86400;
    let hours = (secs % 86400) / 3600;
    let minutes = (secs % 3600) / 60;
    let mut out: Vec<char> = Vec::new();
    if days > 0 {
        push_all(&mut out, &decimal_text(days));
        push_all(&mut out, &chars_of("d "));
    }
    if days > 0 || hours > 0 {
        push_all(&mut out, &decimal_text(hours));
        push_all(&mut out, &chars_of("h "));
    }
    push_all(&mut out, &decimal_text(minutes));
    push_all(&mut out, &chars_of("m"));
    proof {
        let d = dec_text(days as nat);
        let h = dec_text(hours as nat);
        let m = dec_text(minutes as nat);
        if days > 0 {
            assert(out@ =~= d + "d "@ + h + "h "@ + m + "m"@);
        } else if hours > 0 {
            assert(out@ =~= h + "h "@ + m + "m"@);
        } else {
            assert(out@ =~= m + "m"@);
        }
    }
    string_of(&out)
}

/// The uptime from the uptime file (`/proc/uptime`), whose first number is
/// the seconds since boot.
pub fn uptime_text(contents: &str) -> (r: String)
    ensures
        r@ == uptime_of(contents@),
{
    let ws = words_in(&chars_of(contents));
    let ghost wv = views(ws@);
    if ws.len() == 0 {
        return unknown();
    }
    let w = &ws[0];
    assert(w@ == wv[0]);
    proof {
        assert(w@.subrange(0, w@.len() as int) =~= w@);
    }
    match read_decimal(w, 0, w.len()) {
        Some(d) => format_duration(whole_seconds(d)),
        None => unknown(),
    }
}

/// The name that an `lspci` line gives a graphics controller: its third
/// colon-separated field, trimmed.
pub open spec fn gpu_of_line(l: Seq<char>) -> Option<Seq<char>> {
    if (contains(l, "VGA compatible controller"@) || contains(l, "3D controller"@)) && split_on(
        l,
        ':',
    ).len() > 2 {
        Some(trim(split_on(l, ':')[2]))
    } else {
        None
    }
}

pub open spec fn gpu_names(ls: Seq<Seq<char>>, n: int) -> Seq<Seq<char>>
    decreases n,
{
    if n <= 0 {
        Seq::empty()
    } else {
        match gpu_of_line(ls[n - 1]) {
            Some(g) => gpu_names(ls, n - 1).push(g),
            None => gpu_names(ls, n - 1),
        }
    }
}

/// The graphics controllers of a device listing, or just `Unknown` if none.
pub open spec fn gpus_of(listing: Seq<char>) -> Seq<Seq<char>> {
    let g = gpu_names(lines(listing), lines(listing).len() as int);
    if g.len() > 0 {
        g
    } else {
        seq![unknown_text()]
    }
}

fn gpu_of_chars(l: &Vec<char>) -> (r: Option<String>)
    ensures
        match (r, gpu_of_line(l@)) {
            (Some(a), Some(b)) => a@ == b,
            (None, None) => true,
            _ => false,
        },
{
    let n = l.len();
    proof {
        assert(l@.subrange(0, n as int) =~= l@);
    }
    if !contains_in(l, 0, n, &chars_of("VGA compatible controller")) && !contains_in(
        l,
        0,
        n,
        &chars_of("3D controller"),
    ) {
        return None;
    }
    let parts = split_in(l, ':');
    let ghost pv = views(parts@);
    if parts.len() <= 2 {
        return None;
    }
    let p = &parts[2];
    assert(p@ == pv[2]);
    proof {
        assert(p@.subrange(0, p@.len() as int) =~= p@);
    }
    let (a, b) = trim_range(p, 0, p.len());
    Some(string_range(p, a, b))
}

/// The graphics controllers in a device listing (`lspci`); pass an empty
/// listing when the tool could not be run.
pub fn gpus_from_listing(listing: &str) -> (r: Vec<String>)
    ensures
        string_views(r@) == gpus_of(listing@),
{
    let ls = lines_in(&chars_of(listing));
    let ghost lsv = views(ls@);
    let mut out: Vec<String> = Vec::new();
    let mut i: usize = 0;
    while i < ls.len()
        invariant
            i <= ls.len(),
            lsv == views(ls@),
            lsv == lines(listing@),
            string_views(out@) == gpu_names(lsv, i as int),
        decreases ls.len() - i,
    {
        assert(ls@[i as int]@ == lsv[i as int]);
        match gpu_of_chars(&ls[i]) {
            Some(g) => {
                let ghost before = out@;
                out.push(g);
                assert(string_views(out@) =~= string_views(before).push(g@));
            },
            None => {},
        }
        i += 1;
    }
    if out.len() == 0 {
        let mut u: Vec<String> = Vec::new();
        u.push(unknown());
        assert(string_views(u@) =~= seq![unknown_text()]);
        assert(string_views(out@).len() == 0);
        u
    } else {
        out
    }
}

/// Hundredths of a GiB in `kb` KiB, rounded to nearest, ties to even.
pub open spec fn gib_hundredths(kb: nat) -> nat {
    let n = kb * 100;
    let q = n / 1048576;
    let r = n % 1048576;
    if 2 * r > 1048576 || (2 * r == 1048576 && q % 2 == 1) {
        q + 1
    } else {
        q
    }
}

/// `kb` KiB in GiB with two decimals, as `12.34 GB`.
pub open spec fn gib_text(kb: nat) -> Seq<char> {
    let h = gib_hundredths(kb);
    dec_text(h / 100) + seq!['.', digit_char(((h % 100) / 10) as int), digit_char((h % 10) as int)]
        + " GB"@
}

fn format_gib(kb: u64) -> (r: String)
    ensures
        r@ == gib_text(kb as nat),
{
    let n: u128 = kb as u128 * 100;
    let q = n / 1048576;
    let rem = n % 1048576;
    let h: u128 = if 2 * rem > 1048576 || (2 * rem == 1048576 && q % 2 == 1) {
        q + 1
    } else {
        q
    };
    assert(h <= kb as u128 * 100);
    let mut out = decimal_text((h / 100) as u64);
    let ghost whole = out@;
    let d1 = decimal_text(((h % 100) / 10) as u64);
    let d2 = decimal_text((h % 10) as u64);
    assert(d1@ == seq![digit_char(((h % 100) / 10) as int)]);
    assert(d2@ == seq![digit_char((h % 10) as int)]);
    out.push('.');
    out.push(d1[0]);
    out.push(d2[0]);
    push_all(&mut out, &chars_of(" GB"));
    assert(out@ =~= whole + seq!['.', digit_char(((h % 100) / 10) as int), digit_char((h % 10) as int)]
        + " GB"@);
    string_of(&out)
}

/// The value of a meminfo line's second word, zero when it is not a `u64`;
/// `None` when the line has no second word.
pub open spec fn mem_number(l: Seq<char>) -> Option<u64> {
    if words(l).len() > 1 {
        Some(
            match parse_unsigned(words(l)[1], u64::MAX as int) {
                Some(n) => n as u64,
                None => 0,
            },
        )
    } else {
        None
    }
}

/// The total and available memory after the first `n` lines: the last
/// `MemTotal:` and `MemAvailable:` lines with a second word count.
pub open spec fn mem_scan(ls: Seq<Seq<char>>, n: int) -> (u64, u64)
    decreases n,
{
    if n <= 0 {
        (0, 0)
    } else {
        let (t, a) = mem_scan(ls, n - 1);
        let l = ls[n - 1];
        if starts_with(l, "MemTotal:"@) && mem_number(l) is Some {
            (mem_number(l)->0, a)
        } else if !starts_with(l, "MemTotal:"@) && starts_with(l, "MemAvailable:"@) && mem_number(
            l,
        ) is Some {
            (t, mem_number(l)->0)
        } else {
            (t, a)
        }
    }
}

/// The memory in use, from the memory file: total less available, when both
/// are known and non-zero and the available memory is no more than the total.
pub open spec fn ram_used_of(meminfo: Seq<char>) -> Seq<char> {
    let (t, a) = mem_scan(lines(meminfo), lines(meminfo).len() as int);
    if t > 0 && a > 0 && a <= t {
        gib_text((t - a) as nat)
    } else {
        unknown_text()
    }
}

fn mem_number_of(l: &Vec<char>) -> (r: Option<u64>)
    ensures
        r == mem_number(l@),
{
    let ws = words_in(l);
    let ghost wv = views(ws@);
    if ws.len() <= 1 {
        return None;
    }
    let w = &ws[1];
    assert(w@ == wv[1]);
    proof {
        assert(w@.subrange(0, w@.len() as int) =~= w@);
    }
    match read_unsigned(w, 0, w.len(), 0xffff_ffff_ffff_ffff) {
        Some(n) => Some(n),
        None => Some(0),
    }
}

/// The memory in use, from the memory file (`/proc/meminfo`).
pub fn ram_used_text(meminfo: &str) -> (r: String)
    ensures
        r@ == ram_used_of(meminfo@),
{
    let ls = lines_in(&chars_of(meminfo));
    let ghost lsv = views(ls@);
    let total_tag = chars_of("MemTotal:");
    let avail_tag = chars_of("MemAvailable:");
    let mut total: u64 = 0;
    let mut avail: u64 = 0;
    let mut i: usize = 0;
    while i < ls.len()
        invariant
            i <= ls.len(),
            lsv == views(ls@),
            lsv == lines(meminfo@),
            total_tag@ == "MemTotal:"@,
            avail_tag@ == "MemAvailable:"@,
            (total, avail) == mem_scan(lsv, i as int),
        decreases ls.len() - i,
    {
        let l = &ls[i];
        assert(l@ == lsv[i as int]);
        proof {
            assert(l@.subrange(0, l@.len() as int) =~= l@);
        }
        if starts_with_in(l, 0, l.len(), &total_tag) {
            match mem_number_of(l) {
                Some(n) => {
                    total = n;
                },
                None => {},
            }
        } else if starts_with_in(l, 0, l.len(), &avail_tag) {
            match mem_number_of(l) {
                Some(n) => {
                    avail = n;
                },
                None => {},
            }
        }
        i += 1;
    }
    if total > 0 && avail > 0 && avail <= total {
        format_gib(total - avail)
    } else {
        unknown()
    }
}

/// The total memory: the first `MemTotal:` line whose second word is a `u64`.
pub open spec fn mem_total_from(ls: Seq<Seq<char>>, i: int) -> Seq<char>
    decreases ls.len() - i,
{
    if i < 0 || i >= ls.len() {
        unknown_text()
    } else if starts_with(ls[i], "MemTotal:"@) && words(ls[i]).len() > 1 && parse_unsigned(
        words(ls[i])[1],
        u64::MAX as int,
    ) is Some {
        gib_text(parse_unsigned(words(ls[i])[1], u64::MAX as int)->0 as nat)
    } else {
        mem_total_from(ls, i + 1)
    }
}

/// The total memory, from the memory file (`/proc/meminfo`).
pub fn ram_total_text(meminfo: &str) -> (r: String)
    ensures
        r@ == mem_total_from(lines(meminfo@), 0),
{
    let ls = lines_in(&chars_of(meminfo));
    let ghost lsv = views(ls@);
    let total_tag = chars_of("MemTotal:");
    let mut i: usize = 0;
    while i < ls.len()
        invariant
            i <= ls.len(),
            lsv == views(ls@),
            lsv == lines(meminfo@),
            total_tag@ == "MemTotal:"@,
            mem_total_from(lsv, 0) == mem_total_from(lsv, i as int),
        decreases ls.len() - i,
    {
        let l = &ls[i];
        assert(l@ == lsv[i as int]);
        proof {
            assert(l@.subrange(0, l@.len() as int) =~= l@);
        }
        if starts_with_in(l, 0, l.len(), &total_tag) {
            let ws = words_in(l);
            let ghost wv = views(ws@);
            if ws.len() > 1 {
                let w = &ws[1];
                assert(w@ == wv[1]);
                proof {
                    assert(w@.subrange(0, w@.len() as int) =~= w@);
                }
                match read_unsigned(w, 0, w.len(), 0xffff_ffff_ffff_ffff) {
                    Some(n) => {
                        return format_gib(n);
                    },
                    None => {},
                }
            }
        }
        i += 1;
    }
    unknown()
}

/// Word `idx` of the second line of a disk usage listing, or `Unknown`.
pub open spec fn df_field(listing: Seq<char>, idx: int) -> Seq<char> {
    if lines(listing).len() > 1 && words(lines(listing)[1]).len() > idx {
        words(lines(listing)[1])[idx]
    } else {
        unknown_text()
    }
}

fn df_word(listing: &str, idx: usize) -> (r: String)
    ensures
        r@ == df_field(listing@, idx as int),
{
    let ls = lines_in(&chars_of(listing));
    let ghost lsv = views(ls@);
    if ls.len() <= 1 {
        return unknown();
    }
    assert(ls@[1]@ == lsv[1]);
    let ws = words_in(&ls[1]);
    let ghost wv = views(ws@);
    if ws.len() <= idx {
        return unknown();
    }
    assert(ws@[idx as int]@ == wv[idx as int]);
    string_of(&ws[idx])
}

/// The space used on the root file system, from `df -h /`; pass an empty
/// listing when the tool failed.
pub fn disk_used_text(listing: &str) -> (r: String)
    ensures
        r@ == df_field(listing@, 2),
{
    df_word(listing, 2)
}

/// The size of the root file system, from `df -h /`; pass an empty listing
/// when the tool failed.
pub fn disk_total_text(listing: &str) -> (r: String)
    ensures
        r@ == df_field(listing@, 1),
{
    df_word(listing, 1)
}

/// The processor's model: the second colon-separated field, trimmed, of the
/// first `model name` line that has one.
pub open spec fn cpu_model_from(ls: Seq<Seq<char>>, i: int) -> Seq<char>
    decreases ls.len() - i,
{
    if i < 0 || i >= ls.len() {
        unknown_text()
    } else if starts_with(ls[i], "model name"@) && split_on(ls[i], ':').len() > 1 {
        trim(split_on(ls[i], ':')[1])
    } else {
        cpu_model_from(ls, i + 1)
    }
}

/// The processor's model, from the processor file (`/proc/cpuinfo`).
pub fn cpu_model(cpuinfo: &str) -> (r: String)
    ensures
        r@ == cpu_model_from(lines(cpuinfo@), 0),
{
    let ls = lines_in(&chars_of(cpuinfo));
    let ghost lsv = views(ls@);
    let tag = chars_of("model name");
    let mut i: usize = 0;
    while i < ls.len()
        invariant
            i <= ls.len(),
            lsv == views(ls@),
            lsv == lines(cpuinfo@),
            tag@ == "model name"@,
            cpu_model_from(lsv, 0) == cpu_model_from(lsv, i as int),
        decreases ls.len() - i,
    {
        let l = &ls[i];
        assert(l@ == lsv[i as int]);
        proof {
            assert(l@.subrange(0, l@.len() as int) =~= l@);
        }
        if starts_with_in(l, 0, l.len(), &tag) {
            let parts = split_in(l, ':');
            let ghost pv = views(parts@);
            if parts.len() > 1 {
                let p = &parts[1];
                assert(p@ == pv[1]);
                proof {
                    assert(p@.subrange(0, p@.len() as int) =~= p@);
                }
                let (a, b) = trim_range(p, 0, p.len());
                return string_range(p, a, b);
            }
        }
        i += 1;
    }
    unknown()
}

/// The last component of a path, as `Path::file_name` gives it: empty and
/// `.` components do not count, and a path that ends in `..` has none.
pub open spec fn last_component(ps: Seq<Seq<char>>, n: int) -> Option<Seq<char>>
    decreases n,
{
    if n <= 0 || n > ps.len() {
        None
    } else if ps[n - 1].len() == 0 || ps[n - 1] == "."@ {
        last_component(ps, n - 1)
    } else if ps[n - 1] == ".."@ {
        None
    } else {
        Some(ps[n - 1])
    }
}

/// The shell's description: the first line of its version output, trimmed,
/// when it printed one; otherwise the file name of its path, or `sh`.
pub open spec fn shell_of(path: Seq<char>, version: Option<Seq<char>>) -> Seq<char> {
    if version is Some && lines(version->0).len() > 0 {
        trim(lines(version->0)[0])
    } else {
        match last_component(split_on(path, '/'), split_on(path, '/').len() as int) {
            Some(c) => c,
            None => "sh"@,
        }
    }
}

/// Describes the shell from its path and from what `<shell> --version`
/// printed (`None` when it could not be run or failed).
pub fn shell_text(shell_path: &str, version_output: Option<&str>) -> (r: String)
    ensures
        r@ == shell_of(
            shell_path@,
            match version_output {
                Some(s) => Some(s@),
                None => None,
            },
        ),
{
    match version_output {
        Some(out) => {
            let ls = lines_in(&chars_of(out));
            let ghost lsv = views(ls@);
            if ls.len() > 0 {
                let l = &ls[0];
                assert(l@ == lsv[0]);
                proof {
                    assert(l@.subrange(0, l@.len() as int) =~= l@);
                }
                let (a, b) = trim_range(l, 0, l.len());
                return string_range(l, a, b);
            }
        },
        None => {},
    }
    let ps = split_in(&chars_of(shell_path), '/');
    assert(!(version_output is Some && lines(version_output->0@).len() > 0));
    let ghost pv = views(ps@);
    let dot = chars_of(".");
    let dotdot = chars_of("..");
    let mut n = ps.len();
    while n > 0
        invariant
            n <= ps.len(),
            pv == views(ps@),
            dot@ == "."@,
            dotdot@ == ".."@,
            pv == split_on(shell_path@, '/'),
            !(version_output is Some && lines(version_output->0@).len() > 0),
            last_component(pv, pv.len() as int) == last_component(pv, n as int),
        decreases n,
    {
        let p = &ps[n - 1];
        assert(p@ == pv[n - 1]);
        if p.len() == 0 || same_chars(p, &dot) {
            n -= 1;
        } else if same_chars(p, &dotdot) {
            return String::from_str("sh");
        } else {
            return string_of(p);
        }
    }
    String::from_str("sh")
}

} // verus!
