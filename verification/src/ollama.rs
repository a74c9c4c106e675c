//! Ollama telemetry: the `/api/ps` sample, the decisions of the server-log
//! tail loop, and the fields of the request lines that the Gin router logs.

use crate::pattern::{capture_groups, groups_view, regex_captures, regex_compiles, CompiledRegex};
use crate::text::{
    decimal_digits, is_digit_byte, is_unicode_whitespace, lemma_decimal_digits_value, parse_u16, parse_u16_spec, trim_end_spec, trim_spec, trim_start_spec,
    trim_str,
};
use vstd::prelude::*;

verus! {

/// Where the loaded models are listed.
pub const PS_URL: &'static str = "http://127.0.0.1:11434/api/ps";

/// Period of the `/api/ps` poll, in milliseconds.
pub const PS_POLL_INTERVAL_MS: u64 = 2000;

/// A model that Ollama has loaded.
pub struct OllamaModel {
    pub name: String,
    pub model: String,
    pub size: u64,
    pub size_vram: u64,
    pub expires_at: Option<String>,
}

/// One poll of `/api/ps`.
pub struct OllamaPsSample {
    pub reachable: bool,
    pub models: Vec<OllamaModel>,
    pub ts_ms: u128,
}

/// How a poll of `/api/ps` went.
pub enum PsOutcome {
    /// The request could not be sent or got no response.
    Unreachable,
    /// A response came whose body is not a model list.
    Unreadable,
    /// The response listed these models.
    Listed(Vec<OllamaModel>),
}

/// The sample published for a poll taken at `ts_ms`: the server counts as
/// reachable whenever it answered, and the models are those it listed.
pub fn ps_sample(outcome: PsOutcome, ts_ms: u128) -> (s: OllamaPsSample)
    ensures
        s.ts_ms == ts_ms,
        match outcome {
            PsOutcome::Unreachable => !s.reachable && s.models@.len() == 0,
            PsOutcome::Unreadable => s.reachable && s.models@.len() == 0,
            PsOutcome::Listed(m) => s.reachable && s.models == m,
        },
{
    match outcome {
        PsOutcome::Unreachable => OllamaPsSample { reachable: false, models: Vec::new(), ts_ms },
        PsOutcome::Unreadable => OllamaPsSample { reachable: true, models: Vec::new(), ts_ms },
        PsOutcome::Listed(models) => OllamaPsSample { reachable: true, models, ts_ms },
    }
}

/// The I/O operations of the log tail loop.
#[derive(PartialEq, Eq, Structural)]
pub enum TailPhase {
    /// Open the log file.
    Open,
    /// Move to the end of the opened file.
    SeekEnd,
    /// Read the next line.
    ReadLine,
}

/// How the last operation of the log tail loop went.
#[derive(PartialEq, Eq, Structural)]
pub enum TailEvent {
    OpenFailed,
    Opened,
    SeekFailed,
    SoughtEnd,
    EndOfFile,
    LineRead,
    ReadFailed,
}

/// What the log tail loop does next: wait `sleep_ms`, then run `next`;
/// `parse_line` says whether the line just read is to be parsed first.
pub struct TailStep {
    pub parse_line: bool,
    pub sleep_ms: u64,
    pub next: TailPhase,
}

/// The step that follows an event of the log tail loop: a missing log is
/// retried every 5 s; a failed seek or read reopens the file after 2 s; at
/// the end of the file the loop polls every 500 ms; a line read is parsed
/// and the next one read at once.
pub open spec fn tail_step_spec(event: TailEvent) -> (bool, u64, TailPhase) {
    match event {
        TailEvent::OpenFailed => (false, 5000, TailPhase::Open),
        TailEvent::Opened => (false, 0, TailPhase::SeekEnd),
        TailEvent::SeekFailed => (false, 2000, TailPhase::Open),
        TailEvent::SoughtEnd => (false, 0, TailPhase::ReadLine),
        TailEvent::EndOfFile => (false, 500, TailPhase::ReadLine),
        TailEvent::LineRead => (true, 0, TailPhase::ReadLine),
        TailEvent::ReadFailed => (false, 2000, TailPhase::Open),
    }
}

/// The step of the log tail loop after `event`.
pub fn tail_step(event: TailEvent) -> (s: TailStep)
    ensures
        (s.parse_line, s.sleep_ms, s.next) == tail_step_spec(event),
{
    match event {
        TailEvent::OpenFailed => TailStep { parse_line: false, sleep_ms: 5000, next: TailPhase::Open },
        TailEvent::Opened => TailStep { parse_line: false, sleep_ms: 0, next: TailPhase::SeekEnd },
        TailEvent::SeekFailed => TailStep { parse_line: false, sleep_ms: 2000, next: TailPhase::Open },
        TailEvent::SoughtEnd => TailStep {
            parse_line: false,
            sleep_ms: 0,
            next: TailPhase::ReadLine,
        },
        TailEvent::EndOfFile => TailStep {
            parse_line: false,
            sleep_ms: 500,
            next: TailPhase::ReadLine,
        },
        TailEvent::LineRead => TailStep { parse_line: true, sleep_ms: 0, next: TailPhase::ReadLine },
        TailEvent::ReadFailed => TailStep { parse_line: false, sleep_ms: 2000, next: TailPhase::Open },
    }
}

/// The unit that ends a Go duration text.
#[derive(PartialEq, Eq, Structural)]
pub enum DurationUnit {
    Nanos,
    Micros,
    Millis,
    Seconds,
}

/// A duration text split into its number and its unit; a duration of a
/// minute or more, such as `1m20.5s`, also has whole minutes before the
/// seconds.
pub struct DurationParts {
    pub minutes: Option<String>,
    pub number: String,
    pub unit: DurationUnit,
}

impl DurationParts {
    /// Minutes, number and unit.
    pub open spec fn parts(&self) -> (Option<Seq<char>>, Seq<char>, DurationUnit) {
        (
            match self.minutes {
                Some(m) => Some(m@),
                None => None,
            },
            self.number@,
            self.unit,
        )
    }
}

/// An ASCII decimal digit.
pub open spec fn is_digit_char(c: char) -> bool {
    '0' <= c <= '9'
}

/// `i` marks whole minutes in the text before an `s`: one or more digits,
/// then an `m` at `i`, then the seconds.
pub open spec fn is_minutes_mark(body: Seq<char>, i: int) -> bool {
    &&& 0 < i < body.len()
    &&& body[i] == 'm'
    &&& forall|j: int| 0 <= j < i ==> is_digit_char(#[trigger] body[j])
}

/// The text before an `s` split into optional whole minutes and seconds.
pub open spec fn seconds_parts(body: Seq<char>) -> (Option<Seq<char>>, Seq<char>) {
    if exists|i: int| is_minutes_mark(body, i) {
        let i = choose|i: int| is_minutes_mark(body, i);
        (Some(body.subrange(0, i)), body.subrange(i + 1, body.len() as int))
    } else {
        (None, body)
    }
}

/// `t` ends with `suffix`.
pub open spec fn ends_with(t: Seq<char>, suffix: Seq<char>) -> bool {
    suffix.len() <= t.len() && t.subrange(t.len() - suffix.len(), t.len() as int) == suffix
}

/// How a duration such as `9.148875ms`, `17.442302084s` or `1m20.5s`
/// splits: after trimming whitespace, the suffixes `ms`, then `µs` or `us`,
/// then `ns`, then `s` are tried in turn, and the text before the suffix is
/// the number; before an `s`, leading digits followed by `m` are whole
/// minutes and the rest is the seconds.
pub open spec fn split_duration_spec(s: Seq<char>) -> Option<
    (Option<Seq<char>>, Seq<char>, DurationUnit),
> {
    let t = trim_spec(s);
    if ends_with(t, seq!['m', 's']) {
        Some((None, t.subrange(0, t.len() - 2), DurationUnit::Millis))
    } else if ends_with(t, seq!['\u{b5}', 's']) || ends_with(t, seq!['u', 's']) {
        Some((None, t.subrange(0, t.len() - 2), DurationUnit::Micros))
    } else if ends_with(t, seq!['n', 's']) {
        Some((None, t.subrange(0, t.len() - 2), DurationUnit::Nanos))
    } else if ends_with(t, seq!['s']) {
        let p = seconds_parts(t.subrange(0, t.len() - 1));
        Some((p.0, p.1, DurationUnit::Seconds))
    } else {
        None
    }
}

/// Splits the text before an `s` into optional whole minutes and seconds.
fn split_minutes(body: &str) -> (r: (Option<String>, String))
    ensures
        (match r.0 {
            Some(m) => Some(m@),
            None => None,
        }, r.1@) == seconds_parts(body@),
{
    let n = body.unicode_len();
    let mut k: usize = 0;
    while k < n && '0' <= body.get_char(k) && body.get_char(k) <= '9'
        invariant
            n == body@.len(),
            k <= n,
            forall|j: int| 0 <= j < k ==> is_digit_char(#[trigger] body@[j]),
        decreases n - k,
    {
        k = k + 1;
    }
    if k > 0 && k < n && body.get_char(k) == 'm' {
        assert(is_minutes_mark(body@, k as int));
        let ghost c = choose|i: int| is_minutes_mark(body@, i);
        assert(c == k) by {
            if c < k {
                assert(is_digit_char(body@[c]));
            } else if c > k {
                assert(is_digit_char(body@[k as int]));
            }
        }
        (Some(body.substring_char(0, k).to_owned()), body.substring_char(k + 1, n).to_owned())
    } else {
        assert forall|i: int| !is_minutes_mark(body@, i) by {
            if is_minutes_mark(body@, i) {
                if i < k {
                    assert(is_digit_char(body@[i]));
                } else if i > k {
                    assert(is_digit_char(body@[k as int]));
                }
            }
        }
        (None, body.substring_char(0, n).to_owned())
    }
}

/// The suffix that a unit is written with (`µs` for microseconds).
pub open spec fn unit_suffix(unit: DurationUnit) -> Seq<char> {
    match unit {
        DurationUnit::Nanos => seq!['n', 's'],
        DurationUnit::Micros => seq!['\u{b5}', 's'],
        DurationUnit::Millis => seq!['m', 's'],
        DurationUnit::Seconds => seq!['s'],
    }
}

/// A number followed by its unit's suffix splits back into that number and
/// unit, provided the number does not start with whitespace and, for
/// seconds, does not itself end in a letter that makes a longer suffix.
pub proof fn lemma_split_duration_reads_back(number: Seq<char>, unit: DurationUnit)
    requires
        number.len() == 0 || !is_unicode_whitespace(number[0]),
        unit == DurationUnit::Seconds ==> number.len() == 0 || (number.last() != 'm'
            && number.last() != '\u{b5}' && number.last() != 'u' && number.last() != 'n'),
        unit == DurationUnit::Seconds ==> forall|i: int| !is_minutes_mark(number, i),
    ensures
        split_duration_spec(number + unit_suffix(unit)) == Some((None::<Seq<char>>, number, unit)),
{
    let t = number + unit_suffix(unit);
    let k = unit_suffix(unit).len();
    assert(t.len() > 0);
    assert(trim_start_spec(t) == t) by {
        if number.len() > 0 {
            assert(t[0] == number[0]);
        } else {
            assert(t[0] == unit_suffix(unit)[0]);
        }
    }
    assert(t.last() == 's');
    assert(trim_end_spec(t) == t);
    assert(trim_spec(t) == t);
    assert(t.subrange(t.len() - k, t.len() as int) =~= unit_suffix(unit));
    assert(t.subrange(0, t.len() - k) =~= number);
    assert(t.subrange(t.len() - 1, t.len() as int) =~= seq!['s']);
    if k == 1 && number.len() > 0 {
        assert(t.subrange(t.len() - 2, t.len() as int) =~= seq![number.last(), 's']);
    }
}

/// Whole minutes, `m`, seconds and `s` split back into the minutes and the
/// seconds, provided the seconds do not end in a letter that makes a longer
/// suffix.
pub proof fn lemma_split_minutes_reads_back(minutes: Seq<char>, seconds: Seq<char>)
    requires
        minutes.len() > 0,
        forall|j: int| 0 <= j < minutes.len() ==> is_digit_char(#[trigger] minutes[j]),
        seconds.len() > 0,
        seconds.last() != 'm' && seconds.last() != '\u{b5}' && seconds.last() != 'u'
            && seconds.last() != 'n',
    ensures
        split_duration_spec(minutes + seq!['m'] + seconds + seq!['s']) == Some(
            (Some(minutes), seconds, DurationUnit::Seconds),
        ),
{
    let body = minutes + seq!['m'] + seconds;
    let t = body + seq!['s'];
    assert(t[0] == minutes[0]);
    assert(is_digit_char(minutes[0]));
    assert(trim_start_spec(t) == t);
    assert(t.last() == 's');
    assert(trim_end_spec(t) == t);
    assert(trim_spec(t) == t);
    assert(t.subrange(t.len() - 2, t.len() as int) =~= seq![seconds.last(), 's']);
    assert(t.subrange(t.len() - 1, t.len() as int) =~= seq!['s']);
    assert(t.subrange(0, t.len() - 1) =~= body);
    let k = minutes.len() as int;
    assert(is_minutes_mark(body, k)) by {
        assert forall|j: int| 0 <= j < k implies is_digit_char(#[trigger] body[j]) by {
            assert(body[j] == minutes[j]);
        }
    }
    let c = choose|i: int| is_minutes_mark(body, i);
    assert(c == k) by {
        if c < k {
            assert(body[c] == minutes[c]);
            assert(is_digit_char(minutes[c]));
        } else if c > k {
            assert(is_digit_char(body[k]));
        }
    }
    assert(body.subrange(0, k) =~= minutes);
    assert(body.subrange(k + 1, body.len() as int) =~= seconds);
}

/// Splits a duration text into number and unit; `None` when it has no known
/// unit.
pub fn split_duration(s: &str) -> (r: Option<DurationParts>)
    ensures
        match r {
            Some(p) => split_duration_spec(s@) == Some(p.parts()),
            None => split_duration_spec(s@) is None,
        },
{
    let t = trim_str(s);
    let n: usize = t.unicode_len();
    let ghost ts = t@;
    let last = if n >= 1 {
        t.get_char(n - 1)
    } else {
        ' '
    };
    let before = if n >= 2 {
        t.get_char(n - 2)
    } else {
        ' '
    };
    proof {
        if n >= 1 {
            assert(ts.subrange(n - 1, n as int) =~= seq![last]);
        }
        if n >= 2 {
            assert(ts.subrange(n - 2, n as int) =~= seq![before, last]);
        }
        assert(ends_with(ts, seq!['m', 's']) <==> (n >= 2 && before == 'm' && last == 's')) by {
            if ends_with(ts, seq!['m', 's']) {
                assert(ts.subrange(n - 2, n as int)[0] == before);
                assert(ts.subrange(n - 2, n as int)[1] == last);
            }
        }
        assert(ends_with(ts, seq!['\u{b5}', 's']) <==> (n >= 2 && before == '\u{b5}' && last == 's')) by {
            if ends_with(ts, seq!['\u{b5}', 's']) {
                assert(ts.subrange(n - 2, n as int)[0] == before);
                assert(ts.subrange(n - 2, n as int)[1] == last);
            }
        }
        assert(ends_with(ts, seq!['u', 's']) <==> (n >= 2 && before == 'u' && last == 's')) by {
            if ends_with(ts, seq!['u', 's']) {
                assert(ts.subrange(n - 2, n as int)[0] == before);
                assert(ts.subrange(n - 2, n as int)[1] == last);
            }
        }
        assert(ends_with(ts, seq!['n', 's']) <==> (n >= 2 && before == 'n' && last == 's')) by {
            if ends_with(ts, seq!['n', 's']) {
                assert(ts.subrange(n - 2, n as int)[0] == before);
                assert(ts.subrange(n - 2, n as int)[1] == last);
            }
        }
        assert(ends_with(ts, seq!['s']) <==> (n >= 1 && last == 's')) by {
            if ends_with(ts, seq!['s']) {
                assert(ts.subrange(n - 1, n as int)[0] == last);
            }
        }
    }
    if n >= 2 && before == 'm' && last == 's' {
        Some(
            DurationParts {
                minutes: None,
                number: t.substring_char(0, n - 2).to_owned(),
                unit: DurationUnit::Millis,
            },
        )
    } else if n >= 2 && (before == '\u{b5}' || before == 'u') && last == 's' {
        Some(
            DurationParts {
                minutes: None,
                number: t.substring_char(0, n - 2).to_owned(),
                unit: DurationUnit::Micros,
            },
        )
    } else if n >= 2 && before == 'n' && last == 's' {
        Some(
            DurationParts {
                minutes: None,
                number: t.substring_char(0, n - 2).to_owned(),
                unit: DurationUnit::Nanos,
            },
        )
    } else if n >= 1 && last == 's' {
        let (minutes, number) = split_minutes(t.substring_char(0, n - 1));
        Some(DurationParts { minutes, number, unit: DurationUnit::Seconds })
    } else {
        None
    }
}

/// The request lines that the Gin router writes to the server log, e.g.
/// `[GIN] 2026/05/05 - 19:24:54 | 200 |    9.148875ms |       127.0.0.1 | GET      "/api/tags"`;
/// the groups are the status, the duration, the method and the path.
pub const GIN_LINE_PATTERN: &'static str = r#"\[GIN\]\s+\S+\s+-\s+\S+\s+\|\s+(\d{3})\s+\|\s+(\S+)\s+\|\s+\S+\s+\|\s+(\w+)\s+"([^"]+)""#;

/// Compiles the Gin request-line expression.
pub fn gin_line_re() -> (r: Option<CompiledRegex>)
    ensures
        r is Some == regex_compiles(GIN_LINE_PATTERN@),
        r matches Some(c) ==> c.source() == GIN_LINE_PATTERN@,
{
    CompiledRegex::new(GIN_LINE_PATTERN)
}

/// The fields of a logged request.
pub struct GinFields {
    pub status: u16,
    pub method: String,
    pub path: String,
    pub duration: DurationParts,
}

impl GinFields {
    /// Status, method, path, duration number and duration unit.
    pub open spec fn fields(&self) -> (
        u16,
        Seq<char>,
        Seq<char>,
        (Option<Seq<char>>, Seq<char>, DurationUnit),
    ) {
        (self.status, self.method@, self.path@, self.duration.parts())
    }
}

/// The fields read from the capture groups of a request line: groups 1 to 4
/// must all be present, group 1 must read as a `u16` status and group 2 as a
/// duration with a known unit.
pub open spec fn gin_fields_spec(g: Seq<Option<Seq<char>>>) -> Option<
    (u16, Seq<char>, Seq<char>, (Option<Seq<char>>, Seq<char>, DurationUnit)),
> {
    if g.len() > 4 && g[1] is Some && g[2] is Some && g[3] is Some && g[4] is Some {
        match parse_u16_spec(vstd::utf8::encode_utf8(g[1]->0)) {
            Some(status) => match split_duration_spec(g[2]->0) {
                Some(d) => Some((status, g[3]->0, g[4]->0, d)),
                None => None,
            },
            None => None,
        }
    } else {
        None
    }
}

/// Every request line whose groups read is kept, whatever its status: a
/// status that reads as a `u16` (server errors included) and a duration with
/// a known unit give exactly those fields, with the method and the path as
/// captured.
pub proof fn lemma_gin_fields_keep_every_status(g: Seq<Option<Seq<char>>>, status: u16)
    requires
        g.len() > 4,
        g[1] is Some && g[2] is Some && g[3] is Some && g[4] is Some,
        parse_u16_spec(vstd::utf8::encode_utf8(g[1]->0)) == Some(status),
        split_duration_spec(g[2]->0) is Some,
    ensures
        gin_fields_spec(g) == Some((status, g[3]->0, g[4]->0, split_duration_spec(g[2]->0)->0)),
{
}

/// The status of a request line is the number its status group spells in
/// decimal, for every `u16`: no status is refused.
pub proof fn lemma_gin_status_is_read_whole(g: Seq<Option<Seq<char>>>, status: u16)
    requires
        g.len() > 4,
        g[1] is Some && g[2] is Some && g[3] is Some && g[4] is Some,
        vstd::utf8::encode_utf8(g[1]->0) == decimal_digits(status as nat),
        split_duration_spec(g[2]->0) is Some,
    ensures
        gin_fields_spec(g) matches Some(f) && f.0 == status && f.1 == g[3]->0 && f.2 == g[4]->0,
{
    let d = decimal_digits(status as nat);
    lemma_decimal_digits_value(status as nat);
    assert(d[0] != 0x2B) by {
        assert(is_digit_byte(d[0]));
    }
    assert(parse_u16_spec(d) == Some(status));
    lemma_gin_fields_keep_every_status(g, status);
}

/// Reads the fields of a request line from its capture groups.
pub fn gin_fields_from_groups(groups: &Vec<Option<String>>) -> (r: Option<GinFields>)
    ensures
        match r {
            Some(f) => gin_fields_spec(groups_view(groups@)) == Some(f.fields()),
            None => gin_fields_spec(groups_view(groups@)) is None,
        },
{
    let ghost g = groups_view(groups@);
    if groups.len() <= 4 {
        return None;
    }
    assert(g[1] == (match groups@[1] { Some(s) => Some(s@), None => None }));
    assert(g[2] == (match groups@[2] { Some(s) => Some(s@), None => None }));
    assert(g[3] == (match groups@[3] { Some(s) => Some(s@), None => None }));
    assert(g[4] == (match groups@[4] { Some(s) => Some(s@), None => None }));
    let status_text = match &groups[1] {
        Some(t) => t,
        None => return None,
    };
    let dur_text = match &groups[2] {
        Some(t) => t,
        None => return None,
    };
    let method = match &groups[3] {
        Some(t) => t.clone(),
        None => return None,
    };
    let path = match &groups[4] {
        Some(t) => t.clone(),
        None => return None,
    };
    let status = match parse_u16(status_text.as_str().as_bytes()) {
        Some(v) => v,
        None => return None,
    };
    match split_duration(dur_text.as_str()) {
        Some(duration) => Some(GinFields { status, method, path, duration }),
        None => None,
    }
}

/// Reads the fields of a Gin request line with the compiled expression;
/// `None` when the line does not match or its fields do not read.
pub fn parse_gin_fields(re: &CompiledRegex, line: &str) -> (r: Option<GinFields>)
    ensures
        match regex_captures(re.source(), line@) {
            Some(g) => match r {
                Some(f) => gin_fields_spec(g) == Some(f.fields()),
                None => gin_fields_spec(g) is None,
            },
            None => r is None,
        },
{
    match capture_groups(re, line) {
        Some(groups) => gin_fields_from_groups(&groups),
        None => None,
    }
}

} // verus!
