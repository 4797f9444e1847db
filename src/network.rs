//! Network interfaces: the kind that an interface's name tells, the
//! addresses of the address listing, the fields read from the interface's
//! files, the chain of tools that name the Wi-Fi network, and the order in
//! which interfaces are shown.

use vstd::prelude::*;
use vstd::multiset::{lemma_multiset_empty_len, Multiset};
use vstd::seq_lib::{group_to_multiset_ensures, to_multiset_build, to_multiset_insert};
use crate::number::{parse_unsigned, read_unsigned};
use crate::text::{
    chars_of, copy_range, lemma_lex_total, lemma_lex_trans, lemma_nested, lex_le, lex_le_exec,
    lines, lines_in, same_chars, starts_with, starts_with_in, string_of, string_range, string_views,
    trim, trim_range, views, words, words_in,
};

verus! {

/// The kind of an interface, as its name tells it.
#[derive(Clone, Copy, PartialEq, Eq, Structural, Debug)]
pub enum InterfaceKind {
    WiFi,
    Ethernet,
    Bridge,
    Virtual,
    Other,
}

/// The kind that a name's prefix gives, the first rule that matches winning:
/// `wl` Wi-Fi; `en` or `eth` Ethernet; `br` bridge; `docker` or `veth` virtual.
pub open spec fn kind_of_name(name: Seq<char>) -> InterfaceKind {
    if starts_with(name, "wl"@) {
        InterfaceKind::WiFi
    } else if starts_with(name, "en"@) || starts_with(name, "eth"@) {
        InterfaceKind::Ethernet
    } else if starts_with(name, "br"@) {
        InterfaceKind::Bridge
    } else if starts_with(name, "docker"@) || starts_with(name, "veth"@) {
        InterfaceKind::Virtual
    } else {
        InterfaceKind::Other
    }
}

/// Classifies an interface by its name.
pub fn classify_interface(name: &str) -> (r: InterfaceKind)
    ensures
        r == kind_of_name(name@),
{
    let v = chars_of(name);
    let n = v.len();
    proof {
        assert(v@.subrange(0, n as int) =~= v@);
    }
    if starts_with_in(&v, 0, n, &chars_of("wl")) {
        InterfaceKind::WiFi
    } else if starts_with_in(&v, 0, n, &chars_of("en")) || starts_with_in(&v, 0, n, &chars_of("eth")) {
        InterfaceKind::Ethernet
    } else if starts_with_in(&v, 0, n, &chars_of("br")) {
        InterfaceKind::Bridge
    } else if starts_with_in(&v, 0, n, &chars_of("docker")) || starts_with_in(
        &v,
        0,
        n,
        &chars_of("veth"),
    ) {
        InterfaceKind::Virtual
    } else {
        InterfaceKind::Other
    }
}

/// Whether an interface is listed at all: the loopback interface is not.
pub fn is_listed(name: &str) -> (r: bool)
    ensures
        r == (name@ != "lo"@),
{
    !same_chars(&chars_of(name), &chars_of("lo"))
}

/// The address that one trimmed line of an address listing contributes:
/// the second word of an `inet ` line, or of an `inet6 ` line unless it is
/// link-local (`fe80:`).
pub open spec fn address_of_line(line: Seq<char>) -> Option<Seq<char>> {
    if starts_with(line, "inet "@) {
        if words(line).len() > 1 {
            Some(words(line)[1])
        } else {
            None
        }
    } else if starts_with(line, "inet6 "@) {
        if words(line).len() > 1 && !starts_with(words(line)[1], "fe80:"@) {
            Some(words(line)[1])
        } else {
            None
        }
    } else {
        None
    }
}

/// The addresses of the first `n` lines, in order.
pub open spec fn addresses(ls: Seq<Seq<char>>, n: int) -> Seq<Seq<char>>
    decreases n,
{
    if n <= 0 {
        Seq::empty()
    } else {
        match address_of_line(trim(ls[n - 1])) {
            Some(a) => addresses(ls, n - 1).push(a),
            None => addresses(ls, n - 1),
        }
    }
}

pub open spec fn address_listing(text: Seq<char>) -> Seq<Seq<char>> {
    addresses(lines(text), lines(text).len() as int)
}

fn address_of_chars(v: &Vec<char>) -> (r: Option<String>)
    ensures
        match (r, address_of_line(v@)) {
            (Some(a), Some(b)) => a@ == b,
            (None, None) => true,
            _ => false,
        },
{
    let n = v.len();
    proof {
        assert(v@.subrange(0, n as int) =~= v@);
    }
    let v4 = starts_with_in(v, 0, n, &chars_of("inet "));
    let v6 = starts_with_in(v, 0, n, &chars_of("inet6 "));
    if !v4 && !v6 {
        return None;
    }
    let ws = words_in(v);
    let ghost wv = views(ws@);
    if ws.len() <= 1 {
        return None;
    }
    let w = &ws[1];
    assert(w@ == wv[1]);
    if !v4 {
        proof {
            assert(w@.subrange(0, w@.len() as int) =~= w@);
        }
        if starts_with_in(w, 0, w.len(), &chars_of("fe80:")) {
            return None;
        }
    }
    Some(string_of(w))
}

/// The addresses in an interface's address listing (`ip addr show <name>`):
/// IPv4 addresses and IPv6 addresses that are not link-local, in order.
pub fn parse_ip_addresses(listing: &str) -> (r: Vec<String>)
    ensures
        string_views(r@) == address_listing(listing@),
{
    let text = chars_of(listing);
    let ls = lines_in(&text);
    let ghost lsv = views(ls@);
    let mut out: Vec<String> = Vec::new();
    let mut i: usize = 0;
    while i < ls.len()
        invariant
            i <= ls.len(),
            lsv == views(ls@),
            lsv == lines(text@),
            text@ == listing@,
            string_views(out@) == addresses(lsv, i as int),
        decreases ls.len() - i,
    {
        let line = &ls[i];
        assert(line@ == lsv[i as int]);
        proof {
            assert(line@.subrange(0, line@.len() as int) =~= line@);
        }
        let (a, b) = trim_range(line, 0, line.len());
        let t = copy_range(line, a, b);
        match address_of_chars(&t) {
            Some(addr) => {
                let ghost before = out@;
                out.push(addr);
                assert(string_views(out@) =~= string_views(before).push(addr@));
            },
            None => {},
        }
        i += 1;
    }
    out
}

/// A network interface.
#[derive(Debug)]
pub struct NetworkInterface {
    pub name: String,
    pub state: String,
    pub mac_address: String,
    pub ip_addresses: Vec<String>,
    pub interface_type: InterfaceKind,
    pub mtu: String,
    pub rx_bytes: u64,
    pub tx_bytes: u64,
    pub ssid: Option<String>,
}

/// The contents of an interface's files, each `None` when it could not be read.
pub struct InterfaceFiles {
    pub operstate: Option<String>,
    pub address: Option<String>,
    pub mtu: Option<String>,
    pub rx_bytes: Option<String>,
    pub tx_bytes: Option<String>,
}

/// A file's trimmed contents, or `default` when it could not be read.
pub open spec fn text_field(f: Option<String>, default: Seq<char>) -> Seq<char> {
    match f {
        Some(s) => trim(s@),
        None => default,
    }
}

/// A counter file's value, or zero when it could not be read or is no `u64`.
pub open spec fn counter_field(f: Option<String>) -> u64 {
    match f {
        Some(s) => match parse_unsigned(trim(s@), u64::MAX as int) {
            Some(n) => n as u64,
            None => 0,
        },
        None => 0,
    }
}

fn text_or(f: &Option<String>, default: &str) -> (r: String)
    ensures
        r@ == text_field(*f, default@),
{
    match f {
        Some(s) => {
            let v = chars_of(s.as_str());
            proof {
                assert(v@.subrange(0, v@.len() as int) =~= v@);
            }
            let (a, b) = trim_range(&v, 0, v.len());
            string_range(&v, a, b)
        },
        None => String::from_str(default),
    }
}

fn counter_or_zero(f: &Option<String>) -> (r: u64)
    ensures
        r == counter_field(*f),
{
    match f {
        Some(s) => {
            let v = chars_of(s.as_str());
            proof {
                assert(v@.subrange(0, v@.len() as int) =~= v@);
            }
            let (a, b) = trim_range(&v, 0, v.len());
            match read_unsigned(&v, a, b, 0xffff_ffff_ffff_ffff) {
                Some(n) => n,
                None => 0,
            }
        },
        None => 0,
    }
}

/// Builds an interface from its name, the contents of its files, its
/// addresses and, for a Wi-Fi interface, the network it is on. A file that
/// could not be read gives its field's default: `unknown` for the state and
/// the hardware address, `0` for the MTU, zero for a counter. An interface
/// of another kind has no network name.
pub fn build_interface(
    name: String,
    files: &InterfaceFiles,
    ip_addresses: Vec<String>,
    ssid: Option<String>,
) -> (r: NetworkInterface)
    ensures
        r.name == name,
        r.interface_type == kind_of_name(name@),
        r.state@ == text_field(files.operstate, "unknown"@),
        r.mac_address@ == text_field(files.address, "unknown"@),
        r.mtu@ == text_field(files.mtu, "0"@),
        r.rx_bytes == counter_field(files.rx_bytes),
        r.tx_bytes == counter_field(files.tx_bytes),
        r.ip_addresses == ip_addresses,
        r.ssid == (if kind_of_name(name@) == InterfaceKind::WiFi {
            ssid
        } else {
            None
        }),
{
    let kind = classify_interface(name.as_str());
    let state = text_or(&files.operstate, "unknown");
    let mac_address = text_or(&files.address, "unknown");
    let mtu = text_or(&files.mtu, "0");
    let rx_bytes = counter_or_zero(&files.rx_bytes);
    let tx_bytes = counter_or_zero(&files.tx_bytes);
    let ssid = if kind == InterfaceKind::WiFi {
        ssid
    } else {
        None
    };
    NetworkInterface {
        name,
        state,
        mac_address,
        ip_addresses,
        interface_type: kind,
        mtu,
        rx_bytes,
        tx_bytes,
        ssid,
    }
}

/// The tools that can name the Wi-Fi network an interface is on, in the
/// order in which they are asked.
#[derive(Clone, Copy, PartialEq, Eq, Structural, Debug)]
pub enum SsidSource {
    /// The network manager's list of visible networks (`nmcli -t -f active,ssid dev wifi`).
    NetworkManager,
    /// The link-layer tool that prints the network's name (`iwgetid -r <name>`).
    LinkTool,
    /// The wireless link status (`iw dev <name> link`).
    LinkStatus,
}

/// The network that the first line `yes:<ssid>` from `i` on names, with a
/// non-empty name once trimmed.
pub open spec fn active_line_ssid(ls: Seq<Seq<char>>, i: int) -> Option<Seq<char>>
    decreases ls.len() - i,
{
    if i < 0 || i >= ls.len() {
        None
    } else if starts_with(ls[i], "yes:"@) && trim(ls[i].skip(4)).len() > 0 {
        Some(trim(ls[i].skip(4)))
    } else {
        active_line_ssid(ls, i + 1)
    }
}

/// The network that the first trimmed line `SSID: <ssid>` from `i` on
/// names, with a non-empty name once trimmed.
pub open spec fn status_line_ssid(ls: Seq<Seq<char>>, i: int) -> Option<Seq<char>>
    decreases ls.len() - i,
{
    if i < 0 || i >= ls.len() {
        None
    } else if starts_with(trim(ls[i]), "SSID:"@) && trim(trim(ls[i]).skip(5)).len() > 0 {
        Some(trim(trim(ls[i]).skip(5)))
    } else {
        status_line_ssid(ls, i + 1)
    }
}

/// The network name that a tool's output gives, if any.
pub open spec fn ssid_in(source: SsidSource, out: Seq<char>) -> Option<Seq<char>> {
    match source {
        SsidSource::NetworkManager => active_line_ssid(lines(out), 0),
        SsidSource::LinkTool => if trim(out).len() > 0 {
            Some(trim(out))
        } else {
            None
        },
        SsidSource::LinkStatus => status_line_ssid(lines(out), 0),
    }
}

pub open spec fn same_text(a: Option<String>, b: Option<Seq<char>>) -> bool {
    match (a, b) {
        (Some(x), Some(y)) => x@ == y,
        (None, None) => true,
        _ => false,
    }
}

fn after_prefix_trimmed(v: &Vec<char>, lo: usize, hi: usize, k: usize) -> (r: (usize, usize))
    requires
        lo + k <= hi <= v.len(),
    ensures
        lo + k <= r.0 <= r.1 <= hi,
        v@.subrange(r.0 as int, r.1 as int) == trim(v@.subrange(lo as int, hi as int).skip(k as int)),
{
    proof {
        lemma_nested(v@, lo as int, hi as int, k as int, hi - lo);
    }
    trim_range(v, lo + k, hi)
}

/// The network name in a tool's output, if the output gives one.
pub fn ssid_from_output(source: SsidSource, output: &str) -> (r: Option<String>)
    ensures
        same_text(r, ssid_in(source, output@)),
{
    let text = chars_of(output);
    proof {
        assert(text@.subrange(0, text@.len() as int) =~= text@);
    }
    match source {
        SsidSource::LinkTool => {
            let (a, b) = trim_range(&text, 0, text.len());
            if a == b {
                None
            } else {
                Some(string_range(&text, a, b))
            }
        },
        _ => {
            let ls = lines_in(&text);
            let ghost lsv = views(ls@);
            let tag = if source == SsidSource::NetworkManager {
                chars_of("yes:")
            } else {
                chars_of("SSID:")
            };
            let ghost spec_r = ssid_in(source, output@);
            let mut i: usize = 0;
            while i < ls.len()
                invariant
                    i <= ls.len(),
                    lsv == views(ls@),
                    lsv == lines(output@),
                    source != SsidSource::LinkTool,
                    source == SsidSource::NetworkManager ==> tag@ == "yes:"@,
                    source == SsidSource::LinkStatus ==> tag@ == "SSID:"@,
                    spec_r == ssid_in(source, output@),
                    source == SsidSource::NetworkManager ==> spec_r == active_line_ssid(
                        lsv,
                        i as int,
                    ),
                    source == SsidSource::LinkStatus ==> spec_r == status_line_ssid(
                        lsv,
                        i as int,
                    ),
                decreases ls.len() - i,
            {
                let line = &ls[i];
                assert(line@ == lsv[i as int]);
                proof {
                    assert(line@.subrange(0, line@.len() as int) =~= line@);
                    reveal_strlit("yes:");
                    reveal_strlit("SSID:");
                }
                let (la, lb) = if source == SsidSource::NetworkManager {
                    (0, line.len())
                } else {
                    trim_range(line, 0, line.len())
                };
                if starts_with_in(line, la, lb, &tag) {
                    let (a, b) = after_prefix_trimmed(line, la, lb, tag.len());
                    if a < b {
                        return Some(string_range(line, a, b));
                    }
                }
                i += 1;
            }
            None
        },
    }
}

/// What to do after asking one tool for the network's name.
#[derive(Debug)]
pub enum SsidStep {
    /// Ask this tool next.
    Ask(SsidSource),
    /// The search is over, with this name or none.
    Done(Option<String>),
}

/// The next step of the search for a network's name, after `source` gave
/// `found` (`None` also when the tool could not be run or failed): a name
/// ends the search; otherwise the next tool in order is asked, and after
/// the last the search ends without a name.
pub fn next_ssid_step(source: SsidSource, found: Option<String>) -> (r: SsidStep)
    ensures
        match found {
            Some(s) => r == SsidStep::Done(Some(s)),
            None => match source {
                SsidSource::NetworkManager => r == SsidStep::Ask(SsidSource::LinkTool),
                SsidSource::LinkTool => r == SsidStep::Ask(SsidSource::LinkStatus),
                SsidSource::LinkStatus => r == SsidStep::Done(None),
            },
        },
{
    match found {
        Some(s) => SsidStep::Done(Some(s)),
        None => match source {
            SsidSource::NetworkManager => SsidStep::Ask(SsidSource::LinkTool),
            SsidSource::LinkTool => SsidStep::Ask(SsidSource::LinkStatus),
            SsidSource::LinkStatus => SsidStep::Done(None),
        },
    }
}

/// The name that the first tool to give one gives.
pub open spec fn first_ssid(
    a: Option<Seq<char>>,
    b: Option<Seq<char>>,
    c: Option<Seq<char>>,
) -> Option<Seq<char>> {
    if a is Some {
        a
    } else if b is Some {
        b
    } else {
        c
    }
}

pub open spec fn output_ssid(source: SsidSource, out: Option<&str>) -> Option<Seq<char>> {
    match out {
        Some(o) => ssid_in(source, o@),
        None => None,
    }
}

/// The network's name from the outputs of the three tools, each `None`
/// when the tool could not be run or failed: the first tool, in order,
/// whose output gives a name decides.
pub fn resolve_ssid(
    manager: Option<&str>,
    link_tool: Option<&str>,
    link_status: Option<&str>,
) -> (r: Option<String>)
    ensures
        same_text(
            r,
            first_ssid(
                output_ssid(SsidSource::NetworkManager, manager),
                output_ssid(SsidSource::LinkTool, link_tool),
                output_ssid(SsidSource::LinkStatus, link_status),
            ),
        ),
{
    let mut source = SsidSource::NetworkManager;
    let mut rounds: usize = 0;
    loop
        invariant
            rounds <= 2,
            rounds == 0 ==> source == SsidSource::NetworkManager,
            rounds == 1 ==> source == SsidSource::LinkTool && output_ssid(
                SsidSource::NetworkManager,
                manager,
            ) is None,
            rounds == 2 ==> source == SsidSource::LinkStatus && output_ssid(
                SsidSource::NetworkManager,
                manager,
            ) is None && output_ssid(SsidSource::LinkTool, link_tool) is None,
        decreases 2 - rounds,
    {
        let out = match source {
            SsidSource::NetworkManager => manager,
            SsidSource::LinkTool => link_tool,
            SsidSource::LinkStatus => link_status,
        };
        let found = match out {
            Some(o) => ssid_from_output(source, o),
            None => None,
        };
        match next_ssid_step(source, found) {
            SsidStep::Ask(next) => {
                source = next;
                rounds += 1;
            },
            SsidStep::Done(r) => {
                return r;
            },
        }
    }
}

/// The rank of an interface's state in the display order: up before all others.
pub open spec fn state_rank(n: NetworkInterface) -> int {
    if n.state@ == "up"@ {
        0
    } else {
        1
    }
}

/// Whether `a` may be shown before `b`: interfaces that are up first, then by name.
pub open spec fn iface_le(a: NetworkInterface, b: NetworkInterface) -> bool {
    state_rank(a) < state_rank(b) || (state_rank(a) == state_rank(b) && lex_le(a.name@, b.name@))
}

pub open spec fn interfaces_ordered(ns: Seq<NetworkInterface>) -> bool {
    forall|i: int, j: int| 0 <= i < j < ns.len() ==> iface_le(#[trigger] ns[i], #[trigger] ns[j])
}

proof fn lemma_iface_total(a: NetworkInterface, b: NetworkInterface)
    ensures
        iface_le(a, b) || iface_le(b, a),
{
    lemma_lex_total(a.name@, b.name@, 0);
}

proof fn lemma_iface_trans(a: NetworkInterface, b: NetworkInterface, c: NetworkInterface)
    requires
        iface_le(a, b),
        iface_le(b, c),
    ensures
        iface_le(a, c),
{
    if state_rank(a) == state_rank(b) && state_rank(b) == state_rank(c) {
        lemma_lex_trans(a.name@, b.name@, c.name@, 0);
    }
}

fn iface_le_exec(a: &NetworkInterface, b: &NetworkInterface) -> (r: bool)
    ensures
        r == iface_le(*a, *b),
{
    let up = chars_of("up");
    let ra: u8 = if same_chars(&chars_of(a.state.as_str()), &up) {
        0
    } else {
        1
    };
    let rb: u8 = if same_chars(&chars_of(b.state.as_str()), &up) {
        0
    } else {
        1
    };
    ra < rb || (ra == rb && lex_le_exec(&chars_of(a.name.as_str()), &chars_of(b.name.as_str())))
}

/// Puts interfaces in display order: those that are up first, then by name.
pub fn sort_interfaces(interfaces: Vec<NetworkInterface>) -> (r: Vec<NetworkInterface>)
    ensures
        interfaces_ordered(r@),
        r@.to_multiset() == interfaces@.to_multiset(),
{
    broadcast use group_to_multiset_ensures, lemma_multiset_empty_len;

    let mut rest = interfaces;
    let mut out: Vec<NetworkInterface> = Vec::new();
    assert(out@.to_multiset().len() == 0);
    assert(out@.to_multiset().add(rest@.to_multiset()) =~= interfaces@.to_multiset());
    while rest.len() > 0
        invariant
            interfaces_ordered(out@),
            out@.to_multiset().add(rest@.to_multiset()) == interfaces@.to_multiset(),
        decreases rest.len(),
    {
        let ghost before_rest = rest@;
        let x = rest.pop().unwrap();
        assert(before_rest == rest@.push(x));
        let mut p: usize = 0;
        while p < out.len() && !iface_le_exec(&x, &out[p])
            invariant
                p <= out.len(),
                interfaces_ordered(out@),
                out@.to_multiset().add(before_rest.to_multiset()) == interfaces@.to_multiset(),
                before_rest == rest@.push(x),
                forall|m: int| 0 <= m < p ==> !iface_le(x, #[trigger] out@[m]),
            decreases out.len() - p,
        {
            p += 1;
        }
        let ghost old_out = out@;
        out.insert(p, x);
        assert forall|i: int, j: int| 0 <= i < j < out@.len() implies iface_le(
            #[trigger] out@[i],
            #[trigger] out@[j],
        ) by {
            if j < p {
                assert(out@[i] == old_out[i] && out@[j] == old_out[j]);
            } else if j == p {
                assert(out@[i] == old_out[i]);
                lemma_iface_total(x, old_out[i]);
            } else if i < p {
                assert(out@[i] == old_out[i] && out@[j] == old_out[j - 1]);
            } else if i == p {
                assert(out@[j] == old_out[j - 1]);
                assert(iface_le(x, old_out[p as int]));
                if j - 1 > p {
                    lemma_iface_trans(x, old_out[p as int], old_out[j - 1]);
                }
            } else {
                assert(out@[i] == old_out[i - 1] && out@[j] == old_out[j - 1]);
            }
        }
        assert(out@ == old_out.insert(p as int, x));
        proof {
            to_multiset_insert(old_out, p as int, x);
            to_multiset_build(rest@, x);
        }
        assert(out@.to_multiset().add(rest@.to_multiset()) =~= old_out.to_multiset().add(
            before_rest.to_multiset(),
        ));
    }
    assert(rest@.to_multiset().len() == 0);
    assert(rest@.to_multiset() =~= Multiset::empty());
    assert(out@.to_multiset().add(rest@.to_multiset()) =~= out@.to_multiset());
    out
}

} // verus!
