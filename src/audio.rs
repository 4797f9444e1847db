//! The audio mixer's status report: its sink, source and stream lines, the
//! section state machine that routes them, and the per-node volume reply
//! that later fills in each record's volume and mute state.

use vstd::prelude::*;
use crate::number::{
    dec_text, lemma_dec_text_digits, lemma_parse_dec_text, parse_decimal, parse_unsigned,
    read_decimal, read_unsigned, Decimal,
};
use crate::text::{
    chars_of, contains, contains_in, find_char, find_char_in, find_seq, find_seq_in, in_class,
    is_space, lead_end, lemma_find_char_run, lemma_find_seq_run, lemma_lead_end_run, lemma_nested,
    lemma_trim_after_space, lines, lines_in, occurs_at, skip_class, starts_with, starts_with_in,
    string_range, strip_start, trail_start, trim, trim_range, views, words, words_in, CharClass,
};

verus! {

/// Whether a device plays sound out (a sink) or takes it in (a source).
#[derive(Clone, Copy, PartialEq, Eq, Structural, Debug)]
pub enum DeviceKind {
    Sink,
    Source,
}

/// An audio sink or source.
#[derive(Clone, Debug)]
pub struct AudioDevice {
    pub id: u32,
    pub name: String,
    pub description: String,
    pub device_type: DeviceKind,
    pub volume: Decimal,
    pub muted: bool,
    pub is_default: bool,
}

/// One application's audio stream.
#[derive(Clone, Debug)]
pub struct AudioStream {
    pub id: u32,
    pub app_name: String,
    pub media_name: Option<String>,
    pub volume: Decimal,
    pub muted: bool,
}

/// What the per-node volume query reports.
#[derive(Clone, Copy, PartialEq, Eq, Structural, Debug)]
pub struct VolumeReading {
    pub volume: Decimal,
    pub muted: bool,
}

/// What a device line carries: its id, its description and the default marker.
pub struct DeviceRecord {
    pub id: u32,
    pub description: Seq<char>,
    pub is_default: bool,
}

/// What a stream line carries: its id, the application and the media name.
pub struct StreamRecord {
    pub id: u32,
    pub app_name: Seq<char>,
    pub media_name: Option<Seq<char>>,
}

pub open spec fn vol_tag() -> Seq<char> {
    "[vol:"@
}

/// The device that a line describes, if it has a decimal id before a period.
pub open spec fn device_line(line: Seq<char>) -> Option<DeviceRecord> {
    let t = strip_start(line, CharClass::Decoration);
    let content = strip_start(t, CharClass::StarOrSpace);
    let dot = find_char(content, '.', 0);
    if dot < 0 {
        None
    } else {
        match parse_unsigned(trim(content.take(dot)), u32::MAX as int) {
            None => None,
            Some(id) => {
                let rest = trim(content.skip(dot + 1));
                let v = find_seq(rest, vol_tag(), 0);
                Some(
                    DeviceRecord {
                        id: id as u32,
                        description: if v >= 0 {
                            trim(rest.take(v))
                        } else {
                            rest
                        },
                        is_default: t.len() > 0 && t[0] == '*',
                    },
                )
            },
        }
    }
}

/// `d` is the fresh device of kind `kind` that `rec` describes: no volume
/// read yet, not muted.
pub open spec fn device_from(d: AudioDevice, rec: DeviceRecord, kind: DeviceKind) -> bool {
    &&& d.id == rec.id
    &&& d.name@ == rec.description
    &&& d.description@ == rec.description
    &&& d.is_default == rec.is_default
    &&& d.device_type == kind
    &&& d.volume == Decimal::zero_spec()
    &&& !d.muted
}

/// Parses one sink or source line, such as
/// `" *   53. Built-in Audio Analog Stereo   [vol: 0.30]"`.
/// The inline volume is not kept: the volume query is the one that counts.
pub fn parse_device_line(line: &str, kind: DeviceKind) -> (r: Option<AudioDevice>)
    ensures
        match r {
            None => device_line(line@) is None,
            Some(d) => device_line(line@) matches Some(rec) && device_from(d, rec, kind),
        },
{
    device_of_chars(&chars_of(line), kind)
}

fn device_of_chars(v: &Vec<char>, kind: DeviceKind) -> (r: Option<AudioDevice>)
    ensures
        match r {
            None => device_line(v@) is None,
            Some(d) => device_line(v@) matches Some(rec) && device_from(d, rec, kind),
        },
{
    let n = v.len();
    proof {
        assert(v@.subrange(0, n as int) =~= v@);
    }
    let a = skip_class(v, 0, n, CharClass::Decoration);
    let ghost t = v@.subrange(a as int, n as int);
    assert(t =~= strip_start(v@, CharClass::Decoration));
    let is_default = a < n && v[a] == '*';
    let c0 = skip_class(v, a, n, CharClass::StarOrSpace);
    let ghost content = v@.subrange(c0 as int, n as int);
    proof {
        lemma_nested(v@, a as int, n as int, c0 - a, n - a);
    }
    assert(content =~= strip_start(t, CharClass::StarOrSpace));
    let dot = match find_char_in(v, c0, n, '.') {
        Some(d) => d,
        None => return None,
    };
    let dpos = c0 + dot;
    proof {
        lemma_nested(v@, c0 as int, n as int, dot as int, n - c0);
    }
    let (ia, ib) = trim_range(v, c0, dpos);
    let id = match read_unsigned(v, ia, ib, 0xffff_ffff) {
        Some(x) => x as u32,
        None => return None,
    };
    let (ra, rb) = trim_range(v, dpos + 1, n);
    let tag = chars_of("[vol:");
    let (da, db) = match find_seq_in(v, ra, rb, &tag) {
        Some(p) => {
            proof {
                lemma_nested(v@, ra as int, rb as int, 0, p as int);
            }
            trim_range(v, ra, ra + p)
        },
        None => (ra, rb),
    };
    let description = string_range(v, da, db);
    let name = string_range(v, da, db);
    proof {
        assert(content.take(dot as int) == v@.subrange(c0 as int, dpos as int));
        assert(content.skip(dot + 1) == v@.subrange(dpos + 1, n as int));
        let rest = trim(content.skip(dot + 1));
        assert(rest == v@.subrange(ra as int, rb as int));
        assert(tag@ == vol_tag());
        assert(t.len() > 0 ==> t[0] == v@[a as int]);
        let rec = device_line(v@).unwrap();
        assert(rec.id == id);
        assert(rec.is_default == is_default);
        assert(rec.description == description@);
    }
    Some(
        AudioDevice {
            id,
            name,
            description,
            device_type: kind,
            volume: Decimal::zero(),
            muted: false,
            is_default,
        },
    )
}

/// `s` up to its first `[` (all of it if there is none).
pub open spec fn before_bracket(s: Seq<char>) -> Seq<char> {
    if find_char(s, '[', 0) >= 0 {
        s.take(find_char(s, '[', 0))
    } else {
        s
    }
}

/// What follows the id of a stream line, trimmed.
pub open spec fn stream_rest(line: Seq<char>) -> Seq<char> {
    let t = trim(strip_start(line, CharClass::Decoration));
    trim(t.skip(find_char(t, '.', 0) + 1))
}

/// The stream that a line describes, if it has a decimal id before a period.
pub open spec fn stream_line(line: Seq<char>) -> Option<StreamRecord> {
    let t = trim(strip_start(line, CharClass::Decoration));
    let dot = find_char(t, '.', 0);
    if dot < 0 {
        None
    } else {
        match parse_unsigned(
            trim(strip_start(trim(t.take(dot)), CharClass::Star)),
            u32::MAX as int,
        ) {
            None => None,
            Some(id) => {
                let (app, media) = stream_names(trim(t.skip(dot + 1)));
                Some(StreamRecord { id: id as u32, app_name: app, media_name: media })
            },
        }
    }
}

/// The application and media names in what follows a stream's id: split at
/// the first colon, each part trimmed, the media name ending at a bracket
/// and absent when empty; with no colon, all up to a bracket is the
/// application's name.
pub open spec fn stream_names(rest: Seq<char>) -> (Seq<char>, Option<Seq<char>>) {
    let colon = find_char(rest, ':', 0);
    if colon >= 0 {
        let media = trim(before_bracket(rest.skip(colon + 1)));
        (
            trim(rest.take(colon)),
            if media.len() == 0 {
                None
            } else {
                Some(media)
            },
        )
    } else {
        (trim(before_bracket(rest)), None)
    }
}

/// `s` is the fresh stream that `rec` describes: no volume read yet, not muted.
pub open spec fn stream_from(s: AudioStream, rec: StreamRecord) -> bool {
    &&& s.id == rec.id
    &&& s.app_name@ == rec.app_name
    &&& match (s.media_name, rec.media_name) {
        (Some(a), Some(b)) => a@ == b,
        (None, None) => true,
        _ => false,
    }
    &&& s.volume == Decimal::zero_spec()
    &&& !s.muted
}

/// The end of `before_bracket(v[lo..hi])`.
fn bracket_end(v: &Vec<char>, lo: usize, hi: usize) -> (r: usize)
    requires
        lo <= hi <= v.len(),
    ensures
        lo <= r <= hi,
        v@.subrange(lo as int, r as int) == before_bracket(v@.subrange(lo as int, hi as int)),
{
    match find_char_in(v, lo, hi, '[') {
        Some(p) => {
            proof {
                lemma_nested(v@, lo as int, hi as int, 0, p as int);
            }
            lo + p
        },
        None => {
            assert(v@.subrange(lo as int, hi as int) =~= v@.subrange(lo as int, hi as int));
            hi
        },
    }
}

/// Parses one stream line, such as `"     64. firefox: AudioStream [vol: 0.50]"`.
pub fn parse_stream_line(line: &str) -> (r: Option<AudioStream>)
    ensures
        match r {
            None => stream_line(line@) is None,
            Some(st) => stream_line(line@) matches Some(rec) && stream_from(st, rec),
        },
{
    stream_of_chars(&chars_of(line))
}

fn stream_of_chars(v: &Vec<char>) -> (r: Option<AudioStream>)
    ensures
        match r {
            None => stream_line(v@) is None,
            Some(st) => stream_line(v@) matches Some(rec) && stream_from(st, rec),
        },
{
    let n = v.len();
    proof {
        assert(v@.subrange(0, n as int) =~= v@);
    }
    let a = skip_class(v, 0, n, CharClass::Decoration);
    proof {
        assert(v@.subrange(a as int, n as int) =~= strip_start(v@, CharClass::Decoration));
    }
    let (ta, tb) = trim_range(v, a, n);
    let ghost t = v@.subrange(ta as int, tb as int);
    let dot = match find_char_in(v, ta, tb, '.') {
        Some(d) => d,
        None => return None,
    };
    let dpos = ta + dot;
    proof {
        lemma_nested(v@, ta as int, tb as int, dot as int, tb - ta);
    }
    let (ia, ib) = trim_range(v, ta, dpos);
    let ja = skip_class(v, ia, ib, CharClass::Star);
    proof {
        assert(v@.subrange(ja as int, ib as int) =~= strip_start(
            v@.subrange(ia as int, ib as int),
            CharClass::Star,
        ));
    }
    let (ka, kb) = trim_range(v, ja, ib);
    let id = match read_unsigned(v, ka, kb, 0xffff_ffff) {
        Some(x) => x as u32,
        None => return None,
    };
    let (ra, rb) = trim_range(v, dpos + 1, tb);
    proof {
        assert(t.take(dot as int) == v@.subrange(ta as int, dpos as int));
        assert(t.skip(dot + 1) == v@.subrange(dpos + 1, tb as int));
    }
    let (app_name, media_name) = names_of_chars(v, ra, rb);
    Some(AudioStream { id, app_name, media_name, volume: Decimal::zero(), muted: false })
}

fn names_of_chars(v: &Vec<char>, ra: usize, rb: usize) -> (r: (String, Option<String>))
    requires
        ra <= rb <= v.len(),
    ensures
        stream_names(v@.subrange(ra as int, rb as int)).0 == r.0@,
        match (r.1, stream_names(v@.subrange(ra as int, rb as int)).1) {
            (Some(a), Some(b)) => a@ == b,
            (None, None) => true,
            _ => false,
        },
{
    match find_char_in(v, ra, rb, ':') {
        Some(c) => {
            let cpos = ra + c;
            proof {
                lemma_nested(v@, ra as int, rb as int, c as int, rb - ra);
                lemma_nested(v@, ra as int, rb as int, c + 1, rb - ra);
            }
            let (aa, ab) = trim_range(v, ra, cpos);
            let me = bracket_end(v, cpos + 1, rb);
            let (ma, mb) = trim_range(v, cpos + 1, me);
            let media_name = if ma == mb {
                None
            } else {
                Some(string_range(v, ma, mb))
            };
            (string_range(v, aa, ab), media_name)
        },
        None => {
            let e = bracket_end(v, ra, rb);
            let (aa, ab) = trim_range(v, ra, e);
            (string_range(v, aa, ab), None)
        },
    }
}

/// The subsection of the audio block that the state machine is in.
#[derive(Clone, Copy, PartialEq, Eq, Structural, Debug)]
pub enum Section {
    Idle,
    Sinks,
    Sources,
    Streams,
}

/// Where the walk over a status report stands: inside the audio block or
/// not, and in which subsection.
#[derive(Clone, Copy, PartialEq, Eq, Structural, Debug)]
pub struct ScanState {
    pub in_audio: bool,
    pub section: Section,
}

/// What becomes of one line of a status report.
#[derive(Clone, Copy, PartialEq, Eq, Structural, Debug)]
pub enum LineRoute {
    Skip,
    Sink,
    Source,
    Stream,
}

impl ScanState {
    pub open spec fn start_spec() -> ScanState {
        ScanState { in_audio: false, section: Section::Idle }
    }

    /// The state before the first line: outside any block.
    #[verifier::when_used_as_spec(start_spec)]
    pub fn start() -> (r: ScanState)
        ensures
            r == ScanState::start_spec(),
    {
        ScanState { in_audio: false, section: Section::Idle }
    }
}

/// One step of the state machine: the state after `line`, and where the
/// line goes. Block keywords open and close the audio block; inside it,
/// subsection markers choose the section; other non-blank lines go to the
/// parser of the current section.
pub open spec fn route(st: ScanState, line: Seq<char>) -> (ScanState, LineRoute) {
    if starts_with(line, "Audio"@) {
        (ScanState { in_audio: true, section: st.section }, LineRoute::Skip)
    } else if starts_with(line, "Video"@) || starts_with(line, "Settings"@) {
        (ScanState { in_audio: false, section: Section::Idle }, LineRoute::Skip)
    } else if !st.in_audio {
        (st, LineRoute::Skip)
    } else if contains(line, "Sinks:"@) {
        (ScanState { in_audio: true, section: Section::Sinks }, LineRoute::Skip)
    } else if contains(line, "Sources:"@) {
        (ScanState { in_audio: true, section: Section::Sources }, LineRoute::Skip)
    } else if contains(line, "Streams:"@) {
        (ScanState { in_audio: true, section: Section::Streams }, LineRoute::Skip)
    } else if contains(line, "Devices:"@) || contains(line, "Filters:"@) {
        (ScanState { in_audio: true, section: Section::Idle }, LineRoute::Skip)
    } else if trim(strip_start(line, CharClass::Decoration)).len() == 0 {
        (st, LineRoute::Skip)
    } else {
        (
            st,
            match st.section {
                Section::Idle => LineRoute::Skip,
                Section::Sinks => LineRoute::Sink,
                Section::Sources => LineRoute::Source,
                Section::Streams => LineRoute::Stream,
            },
        )
    }
}

fn route_chars(st: ScanState, v: &Vec<char>) -> (r: (ScanState, LineRoute))
    ensures
        r == route(st, v@),
{
    let n = v.len();
    proof {
        assert(v@.subrange(0, n as int) =~= v@);
    }
    if starts_with_in(v, 0, n, &chars_of("Audio")) {
        return (ScanState { in_audio: true, section: st.section }, LineRoute::Skip);
    }
    if starts_with_in(v, 0, n, &chars_of("Video")) || starts_with_in(v, 0, n, &chars_of("Settings")) {
        return (ScanState { in_audio: false, section: Section::Idle }, LineRoute::Skip);
    }
    if !st.in_audio {
        return (st, LineRoute::Skip);
    }
    if contains_in(v, 0, n, &chars_of("Sinks:")) {
        return (ScanState { in_audio: true, section: Section::Sinks }, LineRoute::Skip);
    }
    if contains_in(v, 0, n, &chars_of("Sources:")) {
        return (ScanState { in_audio: true, section: Section::Sources }, LineRoute::Skip);
    }
    if contains_in(v, 0, n, &chars_of("Streams:")) {
        return (ScanState { in_audio: true, section: Section::Streams }, LineRoute::Skip);
    }
    if contains_in(v, 0, n, &chars_of("Devices:")) || contains_in(v, 0, n, &chars_of("Filters:")) {
        return (ScanState { in_audio: true, section: Section::Idle }, LineRoute::Skip);
    }
    let a = skip_class(v, 0, n, CharClass::Decoration);
    proof {
        assert(v@.subrange(a as int, n as int) =~= strip_start(v@, CharClass::Decoration));
    }
    let (ca, cb) = trim_range(v, a, n);
    if ca == cb {
        return (st, LineRoute::Skip);
    }
    let r = match st.section {
        Section::Idle => LineRoute::Skip,
        Section::Sinks => LineRoute::Sink,
        Section::Sources => LineRoute::Source,
        Section::Streams => LineRoute::Stream,
    };
    (st, r)
}

/// One step of the state machine on one line of a status report.
pub fn classify_line(state: ScanState, line: &str) -> (r: (ScanState, LineRoute))
    ensures
        r == route(state, line@),
{
    route_chars(state, &chars_of(line))
}

/// The records that a status report holds, section by section.
pub struct AudioModel {
    pub sinks: Seq<DeviceRecord>,
    pub sources: Seq<DeviceRecord>,
    pub streams: Seq<StreamRecord>,
}

/// `m` with the record that `line` yields along `r`, if it yields one.
pub open spec fn absorb(m: AudioModel, r: LineRoute, line: Seq<char>) -> AudioModel {
    match r {
        LineRoute::Sink => match device_line(line) {
            Some(d) => AudioModel { sinks: m.sinks.push(d), sources: m.sources, streams: m.streams },
            None => m,
        },
        LineRoute::Source => match device_line(line) {
            Some(d) => AudioModel { sinks: m.sinks, sources: m.sources.push(d), streams: m.streams },
            None => m,
        },
        LineRoute::Stream => match stream_line(line) {
            Some(x) => AudioModel { sinks: m.sinks, sources: m.sources, streams: m.streams.push(x) },
            None => m,
        },
        LineRoute::Skip => m,
    }
}

/// The state and the records after the first `n` lines of `ls`.
pub open spec fn scan(ls: Seq<Seq<char>>, n: int) -> (ScanState, AudioModel)
    decreases n,
{
    if n <= 0 {
        (
            ScanState::start_spec(),
            AudioModel { sinks: Seq::empty(), sources: Seq::empty(), streams: Seq::empty() },
        )
    } else {
        let (st, m) = scan(ls, n - 1);
        let (st2, r) = route(st, ls[n - 1]);
        (st2, absorb(m, r, ls[n - 1]))
    }
}

/// The records of a whole status report.
pub open spec fn audio_report(text: Seq<char>) -> AudioModel {
    scan(lines(text), lines(text).len() as int).1
}

/// A snapshot of the audio mixer.
#[derive(Debug)]
pub struct AudioState {
    pub sinks: Vec<AudioDevice>,
    pub sources: Vec<AudioDevice>,
    pub streams: Vec<AudioStream>,
}

/// `s` holds, as fresh records, exactly what `m` lists, in the same order.
pub open spec fn state_from(s: AudioState, m: AudioModel) -> bool {
    &&& s.sinks.len() == m.sinks.len()
    &&& forall|i: int|
        0 <= i < m.sinks.len() ==> device_from(#[trigger] s.sinks@[i], m.sinks[i], DeviceKind::Sink)
    &&& s.sources.len() == m.sources.len()
    &&& forall|i: int|
        0 <= i < m.sources.len() ==> device_from(
            #[trigger] s.sources@[i],
            m.sources[i],
            DeviceKind::Source,
        )
    &&& s.streams.len() == m.streams.len()
    &&& forall|i: int| 0 <= i < m.streams.len() ==> stream_from(#[trigger] s.streams@[i], m.streams[i])
}

/// Parses the mixer's status report into its sinks, sources and streams,
/// each with volume zero and not muted until the volume query fills them in.
pub fn parse_audio_status(report: &str) -> (r: AudioState)
    ensures
        state_from(r, audio_report(report@)),
{
    let text = chars_of(report);
    let ls = lines_in(&text);
    let ghost lsv = views(ls@);
    let mut st = ScanState::start();
    let mut out = AudioState { sinks: Vec::new(), sources: Vec::new(), streams: Vec::new() };
    let mut i: usize = 0;
    while i < ls.len()
        invariant
            i <= ls.len(),
            lsv == views(ls@),
            lsv == lines(text@),
            text@ == report@,
            st == scan(lsv, i as int).0,
            state_from(out, scan(lsv, i as int).1),
        decreases ls.len() - i,
    {
        let line = &ls[i];
        assert(line@ == lsv[i as int]);
        let (next, r) = route_chars(st, line);
        let ghost m = scan(lsv, i as int).1;
        match r {
            LineRoute::Sink => {
                match device_of_chars(line, DeviceKind::Sink) {
                    Some(d) => out.sinks.push(d),
                    None => {},
                }
            },
            LineRoute::Source => {
                match device_of_chars(line, DeviceKind::Source) {
                    Some(d) => out.sources.push(d),
                    None => {},
                }
            },
            LineRoute::Stream => {
                match stream_of_chars(line) {
                    Some(x) => out.streams.push(x),
                    None => {},
                }
            },
            LineRoute::Skip => {},
        }
        st = next;
        i += 1;
        assert(scan(lsv, i as int).1 == absorb(m, r, lsv[i - 1]));
    }
    out
}

/// The reading in a volume reply such as `"Volume: 0.45 [MUTED]"`: muted when
/// the reply holds `[MUTED]`; the volume is its second word, or zero when
/// that is missing or not a decimal.
pub open spec fn volume_reply(text: Seq<char>) -> VolumeReading {
    let ws = words(text);
    VolumeReading {
        volume: if ws.len() > 1 && parse_decimal(ws[1]) is Some {
            parse_decimal(ws[1])->0
        } else {
            Decimal::zero_spec()
        },
        muted: contains(text, "[MUTED]"@),
    }
}

/// Reads the per-node volume query's reply.
pub fn parse_volume_reply(text: &str) -> (r: VolumeReading)
    ensures
        r == volume_reply(text@),
{
    let v = chars_of(text);
    let n = v.len();
    proof {
        assert(v@.subrange(0, n as int) =~= v@);
    }
    let muted = contains_in(&v, 0, n, &chars_of("[MUTED]"));
    let ws = words_in(&v);
    let ghost wv = views(ws@);
    let mut volume = Decimal::zero();
    if ws.len() > 1 {
        let w = &ws[1];
        assert(w@ == wv[1]);
        proof {
            assert(w@.subrange(0, w@.len() as int) =~= w@);
        }
        match read_decimal(w, 0, w.len()) {
            Some(d) => {
                volume = d;
            },
            None => {},
        }
    }
    VolumeReading { volume, muted }
}

impl AudioDevice {
    /// Takes the volume and mute state from a volume reading, when the query
    /// gave one; the device's identity is left as it was.
    pub fn apply_reading(&mut self, reading: Option<VolumeReading>)
        ensures
            final(self).id == old(self).id,
            final(self).name == old(self).name,
            final(self).description == old(self).description,
            final(self).device_type == old(self).device_type,
            final(self).is_default == old(self).is_default,
            match reading {
                Some(x) => final(self).volume == x.volume && final(self).muted == x.muted,
                None => final(self).volume == old(self).volume && final(self).muted == old(
                    self,
                ).muted,
            },
    {
        match reading {
            Some(x) => {
                self.volume = x.volume;
                self.muted = x.muted;
            },
            None => {},
        }
    }
}

impl AudioStream {
    /// Takes the volume and mute state from a volume reading, when the query
    /// gave one; the stream's identity is left as it was.
    pub fn apply_reading(&mut self, reading: Option<VolumeReading>)
        ensures
            final(self).id == old(self).id,
            final(self).app_name == old(self).app_name,
            final(self).media_name == old(self).media_name,
            match reading {
                Some(x) => final(self).volume == x.volume && final(self).muted == x.muted,
                None => final(self).volume == old(self).volume && final(self).muted == old(
                    self,
                ).muted,
            },
    {
        match reading {
            Some(x) => {
                self.volume = x.volume;
                self.muted = x.muted;
            },
            None => {},
        }
    }
}

/// In a stream line whose text after the id holds a colon, the application's
/// name is what comes before the first colon, trimmed, and the media name is
/// what lies between that colon and the next bracket, trimmed, or none when
/// that is empty.
pub proof fn lemma_stream_colon_split(line: Seq<char>)
    requires
        stream_line(line) is Some,
        find_char(stream_rest(line), ':', 0) >= 0,
    ensures
        ({
            let rest = stream_rest(line);
            let c = find_char(rest, ':', 0);
            let media = trim(before_bracket(rest.skip(c + 1)));
            let rec = stream_line(line)->0;
            &&& rec.app_name == trim(rest.take(c))
            &&& media.len() == 0 ==> rec.media_name is None
            &&& media.len() > 0 ==> rec.media_name == Some(media)
        }),
{
}

/// The default marker and the space after it, or nothing.
pub open spec fn marker(marked: bool) -> Seq<char> {
    if marked {
        seq!['*', ' ']
    } else {
        Seq::empty()
    }
}

/// The closing part of a device line: the inline volume tag around `level`.
pub open spec fn volume_tail(level: Seq<char>) -> Seq<char> {
    seq![' ', '[', 'v', 'o', 'l', ':', ' '] + level + seq![']']
}

/// The device line `<decoration><marker><id>. <description> [vol: <level>]`.
pub open spec fn device_text(
    deco: Seq<char>,
    marked: bool,
    id: u32,
    desc: Seq<char>,
    level: Seq<char>,
) -> Seq<char> {
    deco + marker(marked) + dec_text(id as nat) + seq!['.', ' '] + desc + volume_tail(level)
}

proof fn lemma_trim_before_space(desc: Seq<char>)
    requires
        desc.len() > 0,
        !is_space(desc[0]),
        !is_space(desc.last()),
    ensures
        trim(desc.push(' ')) == desc,
{
    let x = desc.push(' ');
    let d = desc.len() as int;
    assert(lead_end(x, CharClass::Space, 0) == 0);
    assert(x[d - 1] == desc.last());
    assert(trail_start(x, CharClass::Space, d) == d);
    assert(trail_start(x, CharClass::Space, d + 1) == d);
    assert(strip_start(x, CharClass::Space) =~= x);
    assert(trim(x) =~= desc);
}

proof fn lemma_tag_after_description(desc: Seq<char>, level: Seq<char>)
    requires
        forall|i: int| 0 <= i < desc.len() ==> #[trigger] desc[i] != '[',
    ensures
        find_seq(desc + volume_tail(level), vol_tag(), 0) == desc.len() + 1,
{
    let r1 = desc + volume_tail(level);
    let d = desc.len() as int;
    reveal_strlit("[vol:");
    let p = vol_tag();
    assert(p =~= seq!['[', 'v', 'o', 'l', ':']);
    assert forall|m: int| 0 <= m < d + 1 implies !occurs_at(r1, p, m) by {
        if occurs_at(r1, p, m) {
            assert(r1.subrange(m, m + 5)[0] == r1[m]);
            if m < d {
                assert(r1[m] == desc[m]);
            } else {
                assert(r1[m] == ' ');
            }
        }
    }
    lemma_find_seq_run(r1, p, 0, d + 1);
    assert(r1.subrange(d + 1, d + 6) =~= p);
    assert(occurs_at(r1, p, d + 1));
}

proof fn lemma_prefix_stripped(deco: Seq<char>, marked: bool, body: Seq<char>)
    requires
        forall|i: int| 0 <= i < deco.len() ==> in_class(CharClass::Decoration, #[trigger] deco[i]),
        body.len() > 0,
        crate::number::is_digit(body[0]),
    ensures
        ({
            let t = strip_start(deco + marker(marked) + body, CharClass::Decoration);
            &&& (t.len() > 0 && t[0] == '*') == marked
            &&& strip_start(t, CharClass::StarOrSpace) == body
        }),
{
    let mk = marker(marked);
    let line = deco + mk + body;
    let t_expect = mk + body;
    let dd = deco.len() as int;
    let mm = mk.len() as int;
    assert(line =~= deco + t_expect);
    assert forall|m: int| 0 <= m < dd implies in_class(CharClass::Decoration, #[trigger] line[m]) by {
        assert(line[m] == deco[m]);
    }
    lemma_lead_end_run(line, CharClass::Decoration, 0, dd);
    assert(line[dd] == t_expect[0]);
    assert(lead_end(line, CharClass::Decoration, 0) == dd);
    let t = strip_start(line, CharClass::Decoration);
    assert(t =~= t_expect);
    assert forall|m: int| 0 <= m < mm implies in_class(CharClass::StarOrSpace, #[trigger] t[m]) by {
        assert(t[m] == mk[m]);
    }
    lemma_lead_end_run(t, CharClass::StarOrSpace, 0, mm);
    assert(t[mm] == body[0]);
    assert(strip_start(t, CharClass::StarOrSpace) =~= body);
}

proof fn lemma_id_read(dg: Seq<char>, after: Seq<char>, id: u32)
    requires
        dg == dec_text(id as nat),
    ensures
        ({
            let content = dg + seq!['.'] + after;
            let dot = find_char(content, '.', 0);
            &&& dot == dg.len()
            &&& parse_unsigned(trim(content.take(dot)), u32::MAX as int) == Some(id as int)
            &&& content.skip(dot + 1) == after
        }),
{
    lemma_dec_text_digits(id as nat);
    let content = dg + seq!['.'] + after;
    let gg = dg.len() as int;
    assert forall|m: int| 0 <= m < gg implies #[trigger] content[m] != '.' by {
        assert(content[m] == dg[m]);
        assert(crate::number::is_digit(dg[m]));
    }
    lemma_find_char_run(content, '.', 0, gg);
    assert(content[gg] == '.');
    assert(content.take(gg) =~= dg);
    assert(crate::number::is_digit(dg[0]));
    assert(crate::number::is_digit(dg[gg - 1]));
    assert(lead_end(dg, CharClass::Space, 0) == 0);
    assert(trail_start(dg, CharClass::Space, gg) == gg);
    assert(strip_start(dg, CharClass::Space) =~= dg);
    assert(trim(dg) =~= dg);
    lemma_parse_dec_text(id as nat, u32::MAX as int);
    assert(content.skip(gg + 1) =~= after);
}

/// For a device line `<decoration><marker><id>. <description> [vol: <level>]`
/// the parser recovers the id and the description exactly, whatever tree
/// decoration leads the line and whether the default marker is there; the
/// marker alone sets the default flag. The description is taken as trimmed
/// and without brackets.
pub proof fn lemma_device_line_fields(
    deco: Seq<char>,
    marked: bool,
    id: u32,
    desc: Seq<char>,
    level: Seq<char>,
)
    requires
        forall|i: int| 0 <= i < deco.len() ==> in_class(CharClass::Decoration, #[trigger] deco[i]),
        desc.len() > 0,
        !is_space(desc[0]),
        !is_space(desc.last()),
        forall|i: int| 0 <= i < desc.len() ==> #[trigger] desc[i] != '[',
    ensures
        device_line(device_text(deco, marked, id, desc, level)) == Some(
            DeviceRecord { id, description: desc, is_default: marked },
        ),
{
    let dg = dec_text(id as nat);
    let r1 = desc + volume_tail(level);
    let after = seq![' '] + r1;
    let body = dg + seq!['.'] + after;
    lemma_dec_text_digits(id as nat);
    assert(body[0] == dg[0]);
    assert(device_text(deco, marked, id, desc, level) =~= deco + marker(marked) + body);
    lemma_prefix_stripped(deco, marked, body);
    lemma_id_read(dg, after, id);
    assert(r1[0] == desc[0]);
    assert(r1.last() == ']');
    lemma_trim_after_space(r1);
    lemma_tag_after_description(desc, level);
    assert(r1.take(desc.len() as int + 1) =~= desc.push(' '));
    lemma_trim_before_space(desc);
}

} // verus!
