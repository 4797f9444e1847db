//! Wi-Fi scan results: one record per colon-separated line, hidden networks
//! and repeated names dropped, the connected network first.

use vstd::prelude::*;
use vstd::multiset::{lemma_multiset_empty_len, Multiset};
use vstd::seq_lib::{group_to_multiset_ensures, to_multiset_build, to_multiset_insert};
use crate::number::{parse_i32, read_i32};
use crate::text::{
    chars_of, contains, contains_in, lines, lines_in, same_chars, split_in, split_on, string_of,
    trim, trim_range, views,
};

verus! {

/// A network that a scan found.
#[derive(Clone, Debug)]
pub struct WifiNetwork {
    pub ssid: String,
    pub signal_strength: i32,
    pub security: String,
    pub connected: bool,
    pub bssid: String,
    pub frequency: String,
}

/// The security scheme that the scan's security text names, checked in the
/// order WPA3, WPA2, WPA, WEP; no text means an open network, and text that
/// names none of them is kept as it is.
pub open spec fn security_class(sec: Seq<char>) -> Seq<char> {
    if sec.len() == 0 {
        "Open"@
    } else if contains(sec, "WPA3"@) {
        "WPA3"@
    } else if contains(sec, "WPA2"@) {
        "WPA2"@
    } else if contains(sec, "WPA"@) {
        "WPA"@
    } else if contains(sec, "WEP"@) {
        "WEP"@
    } else {
        sec
    }
}

/// Classifies a scan's security text.
pub fn classify_security(security: &str) -> (r: String)
    ensures
        r@ == security_class(security@),
{
    let v = chars_of(security);
    let n = v.len();
    proof {
        assert(v@.subrange(0, n as int) =~= v@);
    }
    if n == 0 {
        String::from_str("Open")
    } else if contains_in(&v, 0, n, &chars_of("WPA3")) {
        String::from_str("WPA3")
    } else if contains_in(&v, 0, n, &chars_of("WPA2")) {
        String::from_str("WPA2")
    } else if contains_in(&v, 0, n, &chars_of("WPA")) {
        String::from_str("WPA")
    } else if contains_in(&v, 0, n, &chars_of("WEP")) {
        String::from_str("WEP")
    } else {
        string_of(&v)
    }
}

/// What one scan line `in-use:ssid:signal:security:bssid:freq` carries.
pub struct ScanRecord {
    pub ssid: Seq<char>,
    pub signal: i32,
    pub security: Seq<char>,
    pub connected: bool,
    pub bssid: Seq<char>,
    pub frequency: Seq<char>,
}

/// The record of a scan line with at least six fields; the fields are
/// trimmed, a signal that is not an integer counts as zero, and the network
/// is the connected one when the first field is `*`.
pub open spec fn scan_record(line: Seq<char>) -> Option<ScanRecord> {
    let parts = split_on(line, ':');
    if parts.len() < 6 {
        None
    } else {
        Some(
            ScanRecord {
                ssid: trim(parts[1]),
                signal: match parse_i32(trim(parts[2])) {
                    Some(x) => x as i32,
                    None => 0,
                },
                security: security_class(trim(parts[3])),
                connected: parts[0] == "*"@,
                bssid: trim(parts[4]),
                frequency: trim(parts[5]),
            },
        )
    }
}

pub open spec fn ssid_seen(acc: Seq<ScanRecord>, ssid: Seq<char>) -> bool {
    exists|i: int| 0 <= i < acc.len() && (#[trigger] acc[i]).ssid == ssid
}

/// The records of the first `n` scan lines, in scan order: lines of too few
/// fields, hidden networks and names already listed are left out.
pub open spec fn wifi_scan(ls: Seq<Seq<char>>, n: int) -> Seq<ScanRecord>
    decreases n,
{
    if n <= 0 {
        Seq::empty()
    } else {
        let acc = wifi_scan(ls, n - 1);
        match scan_record(ls[n - 1]) {
            Some(r) => if r.ssid.len() > 0 && !ssid_seen(acc, r.ssid) {
                acc.push(r)
            } else {
                acc
            },
            None => acc,
        }
    }
}

pub open spec fn wifi_report(text: Seq<char>) -> Seq<ScanRecord> {
    wifi_scan(lines(text), lines(text).len() as int)
}

pub open spec fn network_is(n: WifiNetwork, r: ScanRecord) -> bool {
    &&& n.ssid@ == r.ssid
    &&& n.signal_strength == r.signal
    &&& n.security@ == r.security
    &&& n.connected == r.connected
    &&& n.bssid@ == r.bssid
    &&& n.frequency@ == r.frequency
}

pub open spec fn networks_are(ns: Seq<WifiNetwork>, rs: Seq<ScanRecord>) -> bool {
    ns.len() == rs.len() && forall|i: int| 0 <= i < rs.len() ==> network_is(#[trigger] ns[i], rs[i])
}

fn record_of_chars(v: &Vec<char>) -> (r: Option<WifiNetwork>)
    ensures
        match (r, scan_record(v@)) {
            (Some(n), Some(rec)) => network_is(n, rec),
            (None, None) => true,
            _ => false,
        },
{
    let parts = split_in(v, ':');
    let ghost pv = views(parts@);
    if parts.len() < 6 {
        return None;
    }
    let field0 = &parts[0];
    let field1 = &parts[1];
    let field2 = &parts[2];
    let field3 = &parts[3];
    let field4 = &parts[4];
    let field5 = &parts[5];
    assert(field0@ == pv[0] && field1@ == pv[1] && field2@ == pv[2] && field3@ == pv[3] && field4@ == pv[4] && field5@
        == pv[5]);
    proof {
        assert(field1@.subrange(0, field1@.len() as int) =~= field1@);
        assert(field2@.subrange(0, field2@.len() as int) =~= field2@);
        assert(field3@.subrange(0, field3@.len() as int) =~= field3@);
        assert(field4@.subrange(0, field4@.len() as int) =~= field4@);
        assert(field5@.subrange(0, field5@.len() as int) =~= field5@);
    }
    let (sa, sb) = trim_range(field1, 0, field1.len());
    let (ga, gb) = trim_range(field2, 0, field2.len());
    let (ca, cb) = trim_range(field3, 0, field3.len());
    let (ba, bb) = trim_range(field4, 0, field4.len());
    let (fa, fb) = trim_range(field5, 0, field5.len());
    let signal = match read_i32(field2, ga, gb) {
        Some(x) => x,
        None => 0,
    };
    let sec = crate::text::copy_range(field3, ca, cb);
    let security = classify_security(string_of(&sec).as_str());
    let star = chars_of("*");
    Some(
        WifiNetwork {
            ssid: crate::text::string_range(field1, sa, sb),
            signal_strength: signal,
            security,
            connected: same_chars(field0, &star),
            bssid: crate::text::string_range(field4, ba, bb),
            frequency: crate::text::string_range(field5, fa, fb),
        },
    )
}

/// Whether some network in `acc` has the name `ssid`.
fn seen_in(acc: &Vec<WifiNetwork>, ssid: &Vec<char>) -> (r: bool)
    ensures
        r == exists|i: int| 0 <= i < acc.len() && (#[trigger] acc@[i]).ssid@ == ssid@,
{
    let mut i: usize = 0;
    while i < acc.len()
        invariant
            i <= acc.len(),
            forall|k: int| 0 <= k < i ==> (#[trigger] acc@[k]).ssid@ != ssid@,
        decreases acc.len() - i,
    {
        if same_chars(&chars_of(acc[i].ssid.as_str()), ssid) {
            return true;
        }
        i += 1;
    }
    false
}

/// Reads a scan listing (`nmcli -t -f IN-USE,SSID,SIGNAL,SECURITY,BSSID,FREQ
/// device wifi list`) into one network per name, in scan order.
pub fn parse_wifi_scan(listing: &str) -> (r: Vec<WifiNetwork>)
    ensures
        networks_are(r@, wifi_report(listing@)),
{
    let text = chars_of(listing);
    let ls = lines_in(&text);
    let ghost lsv = views(ls@);
    let mut out: Vec<WifiNetwork> = Vec::new();
    let mut i: usize = 0;
    while i < ls.len()
        invariant
            i <= ls.len(),
            lsv == views(ls@),
            lsv == lines(text@),
            text@ == listing@,
            networks_are(out@, wifi_scan(lsv, i as int)),
        decreases ls.len() - i,
    {
        let line = &ls[i];
        assert(line@ == lsv[i as int]);
        let ghost acc = wifi_scan(lsv, i as int);
        match record_of_chars(line) {
            Some(net) => {
                let name = chars_of(net.ssid.as_str());
                let dup = seen_in(&out, &name);
                proof {
                    if dup {
                        let k = choose|k: int| 0 <= k < out.len() && (#[trigger] out@[k]).ssid@ == name@;
                        assert(network_is(out@[k], acc[k]));
                        assert(ssid_seen(acc, name@));
                    } else {
                        assert forall|k: int| 0 <= k < acc.len() implies (#[trigger] acc[k]).ssid
                            != name@ by {
                            assert(network_is(out@[k], acc[k]));
                        }
                    }
                }
                if name.len() > 0 && !dup {
                    let ghost before = out@;
                    out.push(net);
                    assert(forall|k: int| 0 <= k < before.len() ==> out@[k] == before[k]);
                }
            },
            None => {},
        }
        i += 1;
    }
    out
}

/// The display rank of a network: connected ones above all others, then by
/// signal strength.
pub open spec fn net_rank(n: WifiNetwork) -> int {
    (if n.connected {
        0x1_0000_0000int
    } else {
        0int
    }) + n.signal_strength as int
}

/// Networks in display order: the connected one first, then by descending signal.
pub open spec fn networks_ordered(ns: Seq<WifiNetwork>) -> bool {
    forall|i: int, j: int| 0 <= i < j < ns.len() ==> net_rank(#[trigger] ns[i]) >= net_rank(#[trigger] ns[j])
}

fn rank_of(n: &WifiNetwork) -> (r: i64)
    ensures
        r as int == net_rank(*n),
{
    (if n.connected {
        0x1_0000_0000i64
    } else {
        0i64
    }) + n.signal_strength as i64
}

/// The networks of rank `k`, in their order.
pub open spec fn of_rank(ns: Seq<WifiNetwork>, k: int) -> Seq<WifiNetwork> {
    ns.filter(|n: WifiNetwork| net_rank(n) == k)
}

proof fn lemma_of_rank_none(s: Seq<WifiNetwork>, k: int)
    requires
        forall|i: int| 0 <= i < s.len() ==> net_rank(#[trigger] s[i]) != k,
    ensures
        of_rank(s, k) == Seq::<WifiNetwork>::empty(),
    decreases s.len(),
{
    reveal(Seq::filter);
    if s.len() > 0 {
        assert forall|i: int| 0 <= i < s.drop_last().len() implies net_rank(
            #[trigger] s.drop_last()[i],
        ) != k by {
            assert(s.drop_last()[i] == s[i]);
        }
        lemma_of_rank_none(s.drop_last(), k);
        assert(net_rank(s.last()) != k);
    }
}

proof fn lemma_of_rank_one(x: WifiNetwork, k: int)
    ensures
        of_rank(seq![x], k) == (if net_rank(x) == k {
            seq![x]
        } else {
            Seq::<WifiNetwork>::empty()
        }),
{
    reveal(Seq::filter);
    let s = seq![x];
    assert(s.drop_last() =~= Seq::<WifiNetwork>::empty());
    assert(Seq::<WifiNetwork>::empty().filter(|n: WifiNetwork| net_rank(n) == k) =~= Seq::<
        WifiNetwork,
    >::empty());
    assert(s.last() == x);
    if net_rank(x) == k {
        assert(Seq::<WifiNetwork>::empty().push(x) =~= seq![x]);
    }
}

proof fn lemma_of_rank_add(a: Seq<WifiNetwork>, b: Seq<WifiNetwork>, k: int)
    ensures
        of_rank(a + b, k) == of_rank(a, k) + of_rank(b, k),
{
    Seq::filter_distributes_over_add(a, b, |n: WifiNetwork| net_rank(n) == k);
}

/// Puts scan results in display order: the connected network first, the
/// rest by descending signal strength; networks of equal rank keep their
/// order.
pub fn sort_networks(networks: Vec<WifiNetwork>) -> (r: Vec<WifiNetwork>)
    ensures
        networks_ordered(r@),
        r@.to_multiset() == networks@.to_multiset(),
        forall|k: int| #[trigger] of_rank(r@, k) == of_rank(networks@, k),
{
    broadcast use group_to_multiset_ensures, lemma_multiset_empty_len;

    let mut rest = networks;
    let mut out: Vec<WifiNetwork> = Vec::new();
    assert(out@.to_multiset().len() == 0);
    assert(out@.to_multiset().add(rest@.to_multiset()) =~= networks@.to_multiset());
    assert(networks@.skip(rest.len() as int) =~= Seq::<WifiNetwork>::empty());
    assert(rest@ =~= networks@.take(rest.len() as int));
    while rest.len() > 0
        invariant
            networks_ordered(out@),
            out@.to_multiset().add(rest@.to_multiset()) == networks@.to_multiset(),
            rest.len() <= networks.len(),
            rest@ == networks@.take(rest.len() as int),
            forall|k: int| #[trigger] of_rank(out@, k) == of_rank(networks@.skip(rest.len() as int), k),
        decreases rest.len(),
    {
        let ghost before_rest = rest@;
        let ghost m = rest.len() as int;
        let x = rest.pop().unwrap();
        assert(before_rest == rest@.push(x));
        assert(x == networks@[m - 1]);
        assert(rest@ =~= networks@.take(m - 1));
        let k = rank_of(&x);
        let mut p: usize = 0;
        while p < out.len() && rank_of(&out[p]) > k
            invariant
                p <= out.len(),
                k as int == net_rank(x),
                networks_ordered(out@),
                out@.to_multiset().add(before_rest.to_multiset()) == networks@.to_multiset(),
                before_rest == rest@.push(x),
                rest.len() == m - 1,
                rest@ == networks@.take(m - 1),
                x == networks@[m - 1],
                1 <= m <= networks.len(),
                forall|kk: int| #[trigger] of_rank(out@, kk) == of_rank(networks@.skip(m), kk),
                forall|j: int| 0 <= j < p ==> net_rank(#[trigger] out@[j]) > net_rank(x),
            decreases out.len() - p,
        {
            p += 1;
        }
        let ghost old_out = out@;
        out.insert(p, x);
        assert forall|i: int, j: int| 0 <= i < j < out@.len() implies net_rank(#[trigger] out@[i])
            >= net_rank(#[trigger] out@[j]) by {
            if j < p {
                assert(out@[i] == old_out[i] && out@[j] == old_out[j]);
            } else if j == p {
                assert(out@[i] == old_out[i]);
            } else if i < p {
                assert(out@[i] == old_out[i] && out@[j] == old_out[j - 1]);
            } else if i == p {
                assert(out@[j] == old_out[j - 1]);
                assert(net_rank(old_out[p as int]) <= net_rank(x));
                if j - 1 > p {
                    assert(net_rank(old_out[p as int]) >= net_rank(old_out[j - 1]));
                }
            } else {
                assert(out@[i] == old_out[i - 1] && out@[j] == old_out[j - 1]);
            }
        }
        assert(out@ == old_out.insert(p as int, x));
        proof {
            to_multiset_insert(old_out, p as int, x);
            to_multiset_build(rest@, x);
            let head = old_out.take(p as int);
            let tail = old_out.skip(p as int);
            assert(out@ =~= head + seq![x] + tail);
            assert(old_out =~= head + tail);
            assert(networks@.skip(m - 1) =~= seq![x] + networks@.skip(m));
            assert forall|kk: int| #[trigger] of_rank(out@, kk) == of_rank(
                networks@.skip(m - 1),
                kk,
            ) by {
                lemma_of_rank_add(head + seq![x], tail, kk);
                lemma_of_rank_add(head, seq![x], kk);
                lemma_of_rank_add(head, tail, kk);
                lemma_of_rank_add(seq![x], networks@.skip(m), kk);
                lemma_of_rank_one(x, kk);
                if kk == net_rank(x) {
                    assert forall|i: int| 0 <= i < head.len() implies net_rank(#[trigger] head[i])
                        != kk by {
                        assert(head[i] == old_out[i]);
                    }
                    lemma_of_rank_none(head, kk);
                    assert(of_rank(out@, kk) =~= seq![x] + of_rank(tail, kk));
                    assert(of_rank(old_out, kk) =~= of_rank(tail, kk));
                } else {
                    assert(of_rank(out@, kk) =~= of_rank(head, kk) + of_rank(tail, kk));
                    assert(of_rank(networks@.skip(m - 1), kk) =~= of_rank(networks@.skip(m), kk));
                }
            }
        }
        assert(out@.to_multiset().add(rest@.to_multiset()) =~= old_out.to_multiset().add(
            before_rest.to_multiset(),
        ));
    }
    assert(networks@.skip(0) =~= networks@);
    assert(rest@.to_multiset().len() == 0);
    assert(rest@.to_multiset() =~= Multiset::empty());
    assert(out@.to_multiset().add(rest@.to_multiset()) =~= out@.to_multiset());
    out
}

/// The `i`-th network kept from the first `n` lines is the record of a line
/// `j` before which no line yields a record of that name.
pub open spec fn kept_first(ls: Seq<Seq<char>>, n: int, i: int) -> bool {
    exists|j: int|
        0 <= j < n && scan_record(ls[j]) == Some(wifi_scan(ls, n)[i]) && #[trigger] first_named(
            ls,
            j,
            wifi_scan(ls, n)[i].ssid,
        )
}

/// Whether no line before `j` yields a record named `ssid`.
pub open spec fn first_named(ls: Seq<Seq<char>>, j: int, ssid: Seq<char>) -> bool {
    forall|k: int|
        0 <= k < j ==> !((#[trigger] scan_record(ls[k])) is Some && scan_record(ls[k])->0.ssid == ssid)
}

proof fn lemma_scan_unique_complete(ls: Seq<Seq<char>>, n: int)
    requires
        0 <= n <= ls.len(),
    ensures
        forall|i: int| 0 <= i < wifi_scan(ls, n).len() ==> (#[trigger] wifi_scan(ls, n)[i]).ssid.len() > 0,
        forall|i: int, j: int|
            0 <= i < j < wifi_scan(ls, n).len() ==> (#[trigger] wifi_scan(ls, n)[i]).ssid != (
            #[trigger] wifi_scan(ls, n)[j]).ssid,
        forall|j: int|
            0 <= j < n && (#[trigger] scan_record(ls[j])) is Some && scan_record(ls[j])->0.ssid.len()
                > 0 ==> ssid_seen(wifi_scan(ls, n), scan_record(ls[j])->0.ssid),
    decreases n,
{
    if n > 0 {
        lemma_scan_unique_complete(ls, n - 1);
        let acc = wifi_scan(ls, n - 1);
        let out = wifi_scan(ls, n);
        if scan_record(ls[n - 1]) is Some {
            let r = scan_record(ls[n - 1])->0;
            if r.ssid.len() > 0 && !ssid_seen(acc, r.ssid) {
                assert(out == acc.push(r));
                assert forall|j: int|
                    0 <= j < n && (#[trigger] scan_record(ls[j])) is Some && scan_record(
                        ls[j],
                    )->0.ssid.len() > 0 implies ssid_seen(out, scan_record(ls[j])->0.ssid) by {
                    if j < n - 1 {
                        let q = scan_record(ls[j])->0;
                        let k = choose|k: int| 0 <= k < acc.len() && (#[trigger] acc[k]).ssid == q.ssid;
                        assert(out[k] == acc[k]);
                    } else {
                        assert(out[acc.len() as int] == r);
                    }
                }
                assert forall|i: int, j: int| 0 <= i < j < out.len() implies (#[trigger] out[i]).ssid
                    != (#[trigger] out[j]).ssid by {
                    if j == acc.len() {
                        assert(out[i] == acc[i]);
                    } else {
                        assert(out[i] == acc[i] && out[j] == acc[j]);
                    }
                }
                assert forall|i: int| 0 <= i < out.len() implies (#[trigger] out[i]).ssid.len() > 0 by {
                    if i < acc.len() {
                        assert(out[i] == acc[i]);
                    }
                }
            } else {
                assert(out == acc);
            }
        } else {
            assert(out == acc);
        }
    }
}

proof fn lemma_scan_first(ls: Seq<Seq<char>>, n: int)
    requires
        0 <= n <= ls.len(),
    ensures
        forall|i: int| 0 <= i < wifi_scan(ls, n).len() ==> #[trigger] kept_first(ls, n, i),
    decreases n,
{
    if n > 0 {
        lemma_scan_first(ls, n - 1);
        lemma_scan_unique_complete(ls, n - 1);
        let acc = wifi_scan(ls, n - 1);
        let out = wifi_scan(ls, n);
        assert forall|i: int| 0 <= i < out.len() implies #[trigger] kept_first(ls, n, i) by {
            if i < acc.len() {
                assert(out[i] == acc[i]);
                assert(kept_first(ls, n - 1, i));
                let j = choose|j: int|
                    0 <= j < n - 1 && scan_record(ls[j]) == Some(acc[i]) && #[trigger] first_named(
                        ls,
                        j,
                        acc[i].ssid,
                    );
                assert(0 <= j < n && scan_record(ls[j]) == Some(out[i]) && first_named(
                    ls,
                    j,
                    out[i].ssid,
                ));
            } else {
                let r = scan_record(ls[n - 1])->0;
                assert(scan_record(ls[n - 1]) is Some && r.ssid.len() > 0 && !ssid_seen(acc, r.ssid));
                assert(out == acc.push(r));
                assert(out[i] == r);
                assert forall|k: int| 0 <= k < n - 1 implies !((#[trigger] scan_record(ls[k])) is Some
                    && scan_record(ls[k])->0.ssid == r.ssid) by {
                    if scan_record(ls[k]) is Some {
                        let q = scan_record(ls[k])->0;
                        if q.ssid.len() > 0 {
                            assert(ssid_seen(acc, q.ssid));
                        }
                    }
                }
                assert(first_named(ls, n - 1, out[i].ssid));
                assert(0 <= n - 1 < n && scan_record(ls[n - 1]) == Some(out[i]) && first_named(
                    ls,
                    n - 1,
                    out[i].ssid,
                ));
            }
        }
    }
}

/// What a scan listing keeps: no hidden network, no name twice, each network
/// the first record in scan order that carries its name, and every named
/// network of the listing there.
pub proof fn lemma_scan_keeps_first(ls: Seq<Seq<char>>, n: int)
    requires
        0 <= n <= ls.len(),
    ensures
        forall|i: int| 0 <= i < wifi_scan(ls, n).len() ==> (#[trigger] wifi_scan(ls, n)[i]).ssid.len() > 0,
        forall|i: int, j: int|
            0 <= i < j < wifi_scan(ls, n).len() ==> (#[trigger] wifi_scan(ls, n)[i]).ssid != (
            #[trigger] wifi_scan(ls, n)[j]).ssid,
        forall|i: int| 0 <= i < wifi_scan(ls, n).len() ==> #[trigger] kept_first(ls, n, i),
        forall|j: int|
            0 <= j < n && (#[trigger] scan_record(ls[j])) is Some && scan_record(ls[j])->0.ssid.len()
                > 0 ==> ssid_seen(wifi_scan(ls, n), scan_record(ls[j])->0.ssid),
{
    lemma_scan_unique_complete(ls, n);
    lemma_scan_first(ls, n);
}

} // verus!
