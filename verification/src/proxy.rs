//! The logic of the inspecting proxy in front of Ollama: which headers are
//! not forwarded, where requests go, which responses carry inference
//! statistics and where in the body they are, and when the proxy stops
//! inspecting a streamed body.

use crate::text::str_eq;
use vstd::prelude::*;
use vstd::string::StringSliceAdditionalSpecFns;
use vstd::utf8::encode_utf8;

verus! {

/// The Ollama server that requests are forwarded to.
pub const UPSTREAM: &'static str = "http://127.0.0.1:11434";

/// The address the proxy listens on.
pub const LISTEN_ADDR: &'static str = "127.0.0.1:11435";

/// The most bytes of a response body that are kept for inspection.
pub const INSPECT_LIMIT: usize = 4194304;

/// Headers that are not forwarded verbatim, in either direction.
pub open spec fn hop_by_hop_spec() -> Seq<Seq<char>> {
    seq![
        "connection"@,
        "keep-alive"@,
        "proxy-authenticate"@,
        "proxy-authorization"@,
        "te"@,
        "trailers"@,
        "transfer-encoding"@,
        "upgrade"@,
        "host"@,
        "content-length"@,
    ]
}

/// `b` with ASCII upper-case letters made lower-case.
pub open spec fn ascii_lower(b: u8) -> u8 {
    if 0x41 <= b <= 0x5A {
        (b + 32) as u8
    } else {
        b
    }
}

/// Equality of two byte strings up to ASCII case, as
/// `str::eq_ignore_ascii_case` compares.
pub open spec fn eq_ignore_ascii_case_spec(a: Seq<u8>, b: Seq<u8>) -> bool {
    a.len() == b.len() && forall|i: int| 0 <= i < a.len() ==> ascii_lower(#[trigger] a[i]) == ascii_lower(b[i])
}

/// A header name, as bytes, that is one of the hop-by-hop headers up to
/// ASCII case.
pub open spec fn is_hop_by_hop_name(name: Seq<u8>) -> bool {
    exists|i: int|
        0 <= i < hop_by_hop_spec().len() && eq_ignore_ascii_case_spec(
            encode_utf8(#[trigger] hop_by_hop_spec()[i]),
            name,
        )
}

/// Whether a header is hop-by-hop does not depend on the case of its name:
/// names that differ only in ASCII case are both dropped or both forwarded.
pub proof fn lemma_hop_by_hop_ignores_case(a: Seq<u8>, b: Seq<u8>)
    requires
        eq_ignore_ascii_case_spec(a, b),
    ensures
        is_hop_by_hop_name(a) == is_hop_by_hop_name(b),
{
    if is_hop_by_hop_name(a) {
        let i = choose|i: int|
            0 <= i < hop_by_hop_spec().len() && eq_ignore_ascii_case_spec(
                encode_utf8(#[trigger] hop_by_hop_spec()[i]),
                a,
            );
        let h = encode_utf8(hop_by_hop_spec()[i]);
        assert(eq_ignore_ascii_case_spec(h, b)) by {
            assert forall|k: int| 0 <= k < h.len() implies ascii_lower(#[trigger] h[k]) == ascii_lower(
                b[k],
            ) by {
                assert(ascii_lower(h[k]) == ascii_lower(a[k]));
                assert(ascii_lower(a[k]) == ascii_lower(b[k]));
            }
        }
    }
    if is_hop_by_hop_name(b) {
        let i = choose|i: int|
            0 <= i < hop_by_hop_spec().len() && eq_ignore_ascii_case_spec(
                encode_utf8(#[trigger] hop_by_hop_spec()[i]),
                b,
            );
        let h = encode_utf8(hop_by_hop_spec()[i]);
        assert(eq_ignore_ascii_case_spec(h, a)) by {
            assert forall|k: int| 0 <= k < h.len() implies ascii_lower(#[trigger] h[k]) == ascii_lower(
                a[k],
            ) by {
                assert(ascii_lower(h[k]) == ascii_lower(b[k]));
                assert(ascii_lower(a[k]) == ascii_lower(b[k]));
            }
        }
    }
}

/// Compares two byte strings up to ASCII case.
fn bytes_eq_ignore_ascii_case(a: &[u8], b: &[u8]) -> (r: bool)
    ensures
        r == eq_ignore_ascii_case_spec(a@, b@),
{
    if a.len() != b.len() {
        return false;
    }
    let mut i: usize = 0;
    while i < a.len()
        invariant
            a@.len() == b@.len(),
            i <= a@.len(),
            forall|k: int| 0 <= k < i ==> ascii_lower(#[trigger] a@[k]) == ascii_lower(b@[k]),
        decreases a.len() - i,
    {
        let x: u8 = if 0x41 <= a[i] && a[i] <= 0x5A {
            a[i] + 32
        } else {
            a[i]
        };
        let y: u8 = if 0x41 <= b[i] && b[i] <= 0x5A {
            b[i] + 32
        } else {
            b[i]
        };
        if x != y {
            return false;
        }
        i = i + 1;
    }
    true
}

/// Whether a header named `name` is hop-by-hop and so not forwarded; names
/// are compared up to ASCII case.
pub fn is_hop_by_hop(name: &str) -> (r: bool)
    ensures
        r == is_hop_by_hop_name(name.spec_bytes()),
{
    let names: Vec<&str> = vec![
        "connection",
        "keep-alive",
        "proxy-authenticate",
        "proxy-authorization",
        "te",
        "trailers",
        "transfer-encoding",
        "upgrade",
        "host",
        "content-length",
    ];
    assert(names@.len() == hop_by_hop_spec().len());
    assert(forall|i: int| 0 <= i < names@.len() ==> (#[trigger] names@[i])@ == hop_by_hop_spec()[i]);
    let mut i: usize = 0;
    while i < names.len()
        invariant
            names@.len() == hop_by_hop_spec().len(),
            forall|k: int| 0 <= k < names@.len() ==> (#[trigger] names@[k])@ == hop_by_hop_spec()[k],
            i <= names@.len(),
            forall|k: int|
                0 <= k < i ==> !eq_ignore_ascii_case_spec(
                    encode_utf8(#[trigger] hop_by_hop_spec()[k]),
                    name.spec_bytes(),
                ),
        decreases names.len() - i,
    {
        let h: &str = names[i];
        if bytes_eq_ignore_ascii_case(h.as_bytes(), name.as_bytes()) {
            assert(eq_ignore_ascii_case_spec(encode_utf8(hop_by_hop_spec()[i as int]), name.spec_bytes()));
            return true;
        }
        i = i + 1;
    }
    false
}

/// The address a request for `path_and_query` is forwarded to.
pub fn upstream_url(path_and_query: &str) -> (u: String)
    ensures
        u@ == UPSTREAM@ + path_and_query@,
{
    let mut u = String::from_str(UPSTREAM);
    u.append(path_and_query);
    u
}

/// Where a response's inference statistics are, by request path.
#[derive(PartialEq, Eq, Structural)]
pub enum ResponseShape {
    /// Newline-delimited JSON events; the last one with `"done": true`
    /// carries the statistics (`/api/generate`, `/api/chat`).
    Ndjson,
    /// One OpenAI-style JSON document with a `usage` block
    /// (`/v1/chat/completions`, `/v1/completions`).
    OpenAiJson,
    /// No statistics are read from other paths.
    Unsupported,
}

/// The shape of the response to a request for `path`.
pub open spec fn response_shape_spec(path: Seq<char>) -> ResponseShape {
    if path == "/api/generate"@ || path == "/api/chat"@ {
        ResponseShape::Ndjson
    } else if path == "/v1/chat/completions"@ || path == "/v1/completions"@ {
        ResponseShape::OpenAiJson
    } else {
        ResponseShape::Unsupported
    }
}

/// Only the four inference endpoints carry statistics: the two Ollama ones
/// stream NDJSON, the two OpenAI-style ones answer with JSON, and every other
/// path is unsupported.
pub proof fn lemma_response_shape_by_path(path: Seq<char>)
    ensures
        response_shape_spec(path) == ResponseShape::Ndjson <==> (path == "/api/generate"@ || path
            == "/api/chat"@),
        response_shape_spec(path) == ResponseShape::OpenAiJson <==> (path
            == "/v1/chat/completions"@ || path == "/v1/completions"@),
        response_shape_spec(path) == ResponseShape::Unsupported <==> !(path == "/api/generate"@
            || path == "/api/chat"@ || path == "/v1/chat/completions"@ || path
            == "/v1/completions"@),
{
    reveal_strlit("/api/generate");
    reveal_strlit("/api/chat");
    reveal_strlit("/v1/chat/completions");
    reveal_strlit("/v1/completions");
    assert("/api/generate"@ != "/v1/chat/completions"@ && "/api/generate"@ != "/v1/completions"@)
        by {
        assert("/api/generate"@[1] != "/v1/completions"@[1]);
        assert("/api/generate"@[1] != "/v1/chat/completions"@[1]);
    }
    assert("/api/chat"@ != "/v1/chat/completions"@ && "/api/chat"@ != "/v1/completions"@) by {
        assert("/api/chat"@[1] != "/v1/completions"@[1]);
        assert("/api/chat"@[1] != "/v1/chat/completions"@[1]);
    }
}

/// Which shape of statistics the response to `path` has.
pub fn response_shape(path: &str) -> (r: ResponseShape)
    ensures
        r == response_shape_spec(path@),
{
    if str_eq(path, "/api/generate") || str_eq(path, "/api/chat") {
        ResponseShape::Ndjson
    } else if str_eq(path, "/v1/chat/completions") || str_eq(path, "/v1/completions") {
        ResponseShape::OpenAiJson
    } else {
        ResponseShape::Unsupported
    }
}

/// An ASCII whitespace byte, as `u8::is_ascii_whitespace` defines it.
pub open spec fn is_ascii_space(b: u8) -> bool {
    b == 0x20 || b == 0x09 || b == 0x0A || b == 0x0C || b == 0x0D
}

/// The length of `s` without its trailing ASCII whitespace.
pub open spec fn trimmed_end_len(s: Seq<u8>) -> int
    decreases s.len(),
{
    if s.len() > 0 && is_ascii_space(s.last()) {
        trimmed_end_len(s.drop_last())
    } else {
        s.len() as int
    }
}

/// Where the line that ends at `end` starts: just after the last newline
/// before `end`, or at 0.
#[verifier::opaque]
pub open spec fn line_start(buf: Seq<u8>, end: int) -> int {
    if exists|i: int| 0 <= i < end && buf[i] == 0x0A {
        1 + choose|i: int|
            0 <= i < end && buf[i] == 0x0A && forall|j: int| i < j < end ==> buf[j] != 0x0A
    } else {
        0
    }
}

/// The span of the line that ends at `end` without its trailing ASCII
/// whitespace, when that leaves it non-empty.
pub open spec fn candidate_at(buf: Seq<u8>, end: int) -> Seq<(int, int)> {
    let s = line_start(buf, end);
    let e = s + trimmed_end_len(buf.subrange(s, end));
    if e > s {
        seq![(s, e)]
    } else {
        Seq::empty()
    }
}

/// The non-blank lines of `buf[..end]`, last first, each as the span of its
/// bytes without trailing ASCII whitespace. A buffer is scanned from its end
/// because the statistics come in the last event.
pub open spec fn ndjson_candidates(buf: Seq<u8>, end: int) -> Seq<(int, int)>
    decreases end,
{
    if end <= 0 || end > buf.len() {
        Seq::empty()
    } else if 0 < line_start(buf, end) <= end {
        candidate_at(buf, end) + ndjson_candidates(buf, line_start(buf, end) - 1)
    } else {
        candidate_at(buf, end)
    }
}

/// Spans as pairs of integers.
pub open spec fn spans_view(v: Seq<(usize, usize)>) -> Seq<(int, int)> {
    v.map_values(|p: (usize, usize)| (p.0 as int, p.1 as int))
}

proof fn lemma_spans_view_push(v: Seq<(usize, usize)>, p: (usize, usize))
    ensures
        spans_view(v.push(p)) == spans_view(v).push((p.0 as int, p.1 as int)),
{
    assert(spans_view(v.push(p)) =~= spans_view(v).push((p.0 as int, p.1 as int)));
}

proof fn lemma_trimmed_end_len_bounds(s: Seq<u8>)
    ensures
        0 <= trimmed_end_len(s) <= s.len(),
    decreases s.len(),
{
    if s.len() > 0 && is_ascii_space(s.last()) {
        lemma_trimmed_end_len_bounds(s.drop_last());
    }
}

proof fn lemma_line_start(buf: Seq<u8>, end: int)
    requires
        0 <= end <= buf.len(),
    ensures
        0 <= line_start(buf, end) <= end,
        forall|j: int| line_start(buf, end) <= j < end ==> buf[j] != 0x0A,
        line_start(buf, end) > 0 ==> buf[line_start(buf, end) - 1] == 0x0A,
{
    reveal(line_start);
    if exists|i: int| 0 <= i < end && buf[i] == 0x0A {
        let c = choose|i: int|
            0 <= i < end && buf[i] == 0x0A && forall|j: int| i < j < end ==> buf[j] != 0x0A;
        let w = choose|i: int| 0 <= i < end && buf[i] == 0x0A;
        let last = lemma_last_newline(buf, end, w);
        assert(0 <= c < end && buf[c] == 0x0A);
    }
}

/// A newline at or after `w` and before `end` with none after it.
proof fn lemma_last_newline(buf: Seq<u8>, end: int, w: int) -> (k: int)
    requires
        0 <= w < end <= buf.len(),
        buf[w] == 0x0A,
    ensures
        w <= k < end,
        buf[k] == 0x0A,
        forall|j: int| k < j < end ==> buf[j] != 0x0A,
    decreases end - w,
{
    if exists|i: int| w < i < end && buf[i] == 0x0A {
        let i = choose|i: int| w < i < end && buf[i] == 0x0A;
        lemma_last_newline(buf, end, i)
    } else {
        w
    }
}

proof fn lemma_trimmed_end_len_last(s: Seq<u8>)
    ensures
        0 <= trimmed_end_len(s) <= s.len(),
        trimmed_end_len(s) > 0 ==> !is_ascii_space(s[trimmed_end_len(s) - 1]),
    decreases s.len(),
{
    if s.len() > 0 && is_ascii_space(s.last()) {
        lemma_trimmed_end_len_last(s.drop_last());
        let t = trimmed_end_len(s.drop_last());
        if t > 0 {
            assert(s.drop_last()[t - 1] == s[t - 1]);
        }
    }
}

/// The candidate lines of an NDJSON body are tried from the last line to
/// the first: each span is a non-empty piece of one line that does not end
/// in whitespace, and every span lies before the spans tried before it.
pub proof fn lemma_ndjson_candidates_last_first(buf: Seq<u8>, end: int)
    requires
        0 <= end <= buf.len(),
    ensures
        forall|i: int|
            0 <= i < ndjson_candidates(buf, end).len() ==> {
                let c = #[trigger] ndjson_candidates(buf, end)[i];
                &&& 0 <= c.0 < c.1 <= end
                &&& forall|j: int| c.0 <= j < c.1 ==> buf[j] != 0x0A
                &&& !is_ascii_space(buf[c.1 - 1])
            },
        forall|i: int, j: int|
            0 <= i < j < ndjson_candidates(buf, end).len() ==> (#[trigger] ndjson_candidates(
                buf,
                end,
            )[j]).1 < (#[trigger] ndjson_candidates(buf, end)[i]).0,
    decreases end,
{
    if end > 0 {
        lemma_line_start(buf, end);
        let st = line_start(buf, end);
        let piece = buf.subrange(st, end);
        lemma_trimmed_end_len_last(piece);
        let e = st + trimmed_end_len(piece);
        if e > st {
            assert(piece[e - st - 1] == buf[e - 1]);
        }
        let here = candidate_at(buf, end);
        let all = ndjson_candidates(buf, end);
        if 0 < st {
            lemma_ndjson_candidates_last_first(buf, st - 1);
            let rest = ndjson_candidates(buf, st - 1);
            assert(all == here + rest);
            assert forall|i: int| 0 <= i < all.len() implies {
                let c = #[trigger] all[i];
                &&& 0 <= c.0 < c.1 <= end
                &&& forall|j: int| c.0 <= j < c.1 ==> buf[j] != 0x0A
                &&& !is_ascii_space(buf[c.1 - 1])
            } by {
                if i >= here.len() {
                    assert(all[i] == rest[i - here.len()]);
                }
            }
            assert forall|i: int, j: int| 0 <= i < j < all.len() implies (#[trigger] all[j]).1
                < (#[trigger] all[i]).0 by {
                if i >= here.len() {
                    assert(all[i] == rest[i - here.len()]);
                    assert(all[j] == rest[j - here.len()]);
                } else {
                    assert(all[i] == (st, e));
                    assert(all[j] == rest[j - here.len()]);
                }
            }
        }
    }
}

/// `buf[a..b]` is a whole line of `buf`: it starts at the beginning or just
/// after a newline, ends at the end or at a newline, and holds no newline.
pub open spec fn is_line(buf: Seq<u8>, a: int, b: int) -> bool {
    &&& 0 <= a <= b <= buf.len()
    &&& (a == 0 || buf[a - 1] == 0x0A)
    &&& (b == buf.len() || buf[b] == 0x0A)
    &&& forall|j: int| a <= j < b ==> buf[j] != 0x0A
}

proof fn lemma_line_start_of_line(buf: Seq<u8>, a: int, end: int)
    requires
        0 <= a <= end <= buf.len(),
        a == 0 || buf[a - 1] == 0x0A,
        forall|j: int| a <= j < end ==> buf[j] != 0x0A,
    ensures
        line_start(buf, end) == a,
{
    lemma_line_start(buf, end);
    let st = line_start(buf, end);
    if st < a {
        assert(buf[a - 1] == 0x0A);
    } else if st > a {
        assert(buf[st - 1] == 0x0A);
    }
}

proof fn lemma_candidates_hold_lines(buf: Seq<u8>, end: int, a: int, b: int)
    requires
        0 <= end <= buf.len(),
        end == buf.len() || buf[end] == 0x0A,
        is_line(buf, a, b),
        b <= end,
        trimmed_end_len(buf.subrange(a, b)) > 0,
    ensures
        ndjson_candidates(buf, end).contains((a, a + trimmed_end_len(buf.subrange(a, b)))),
    decreases end,
{
    let c = (a, a + trimmed_end_len(buf.subrange(a, b)));
    if end == 0 {
        assert(buf.subrange(a, b) =~= Seq::<u8>::empty());
    } else {
        lemma_line_start(buf, end);
        let st = line_start(buf, end);
        let here = candidate_at(buf, end);
        if b == end {
            lemma_line_start_of_line(buf, a, end);
            assert(here == seq![c]);
            if 0 < st {
                assert(ndjson_candidates(buf, end) == here + ndjson_candidates(buf, st - 1));
                assert(ndjson_candidates(buf, end)[0] == c);
            } else {
                assert(ndjson_candidates(buf, end)[0] == c);
            }
        } else {
            assert(buf[b] == 0x0A);
            assert(b < st);
            lemma_candidates_hold_lines(buf, st - 1, a, b);
            let rest = ndjson_candidates(buf, st - 1);
            let all = ndjson_candidates(buf, end);
            assert(all == here + rest);
            let k = choose|k: int| 0 <= k < rest.len() && rest[k] == c;
            assert(all[here.len() + k] == c);
        }
    }
}

/// No line is left out of the scan: every line of the body that is not
/// blank once its trailing ASCII whitespace is cut off is among the spans
/// tried, as its start and its trimmed end, however long it is.
pub proof fn lemma_every_line_is_tried(buf: Seq<u8>, a: int, b: int)
    requires
        is_line(buf, a, b),
        trimmed_end_len(buf.subrange(a, b)) > 0,
    ensures
        ndjson_candidates(buf, buf.len() as int).contains(
            (a, a + trimmed_end_len(buf.subrange(a, b))),
        ),
{
    lemma_candidates_hold_lines(buf, buf.len() as int, a, b);
}

/// A body of one line that ends in no whitespace is tried whole, and alone.
pub proof fn lemma_single_line_is_tried_whole(buf: Seq<u8>)
    requires
        buf.len() > 0,
        forall|j: int| 0 <= j < buf.len() ==> buf[j] != 0x0A,
        !is_ascii_space(buf.last()),
    ensures
        ndjson_candidates(buf, buf.len() as int) == seq![(0int, buf.len() as int)],
{
    let n = buf.len() as int;
    lemma_line_start_of_line(buf, 0, n);
    assert(buf.subrange(0, n) =~= buf);
    assert(trimmed_end_len(buf) == n);
    assert(candidate_at(buf, n) =~= seq![(0int, n)]);
}

/// Spans moved `off` bytes to the right.
pub open spec fn shift_spans(c: Seq<(int, int)>, off: int) -> Seq<(int, int)> {
    c.map_values(|p: (int, int)| (p.0 + off, p.1 + off))
}

/// The line start of `end` is the only position that begins a line ending
/// at `end`: no newline in between, and a newline (or the start) before it.
proof fn lemma_line_start_unique(buf: Seq<u8>, end: int, s: int)
    requires
        0 <= s <= end <= buf.len(),
        forall|j: int| s <= j < end ==> buf[j] != 0x0A,
        s > 0 ==> buf[s - 1] == 0x0A,
    ensures
        line_start(buf, end) == s,
{
    lemma_line_start(buf, end);
    let t = line_start(buf, end);
    if t < s {
        assert(buf[s - 1] == 0x0A);
    } else if t > s {
        assert(buf[t - 1] == 0x0A);
    }
}

/// The candidates of `buf[..end]` depend only on those bytes.
proof fn lemma_candidates_prefix(a: Seq<u8>, b: Seq<u8>, end: int)
    requires
        0 <= end <= a.len(),
        end <= b.len(),
        a.subrange(0, end) == b.subrange(0, end),
    ensures
        ndjson_candidates(a, end) == ndjson_candidates(b, end),
    decreases end,
{
    if end > 0 {
        lemma_line_start(a, end);
        let s = line_start(a, end);
        assert forall|j: int| s <= j < end implies b[j] != 0x0A by {
            assert(a.subrange(0, end)[j] == a[j]);
            assert(b.subrange(0, end)[j] == b[j]);
        }
        if s > 0 {
            assert(a.subrange(0, end)[s - 1] == a[s - 1]);
            assert(b.subrange(0, end)[s - 1] == b[s - 1]);
        }
        lemma_line_start_unique(b, end, s);
        assert(a.subrange(s, end) =~= b.subrange(s, end)) by {
            assert forall|j: int| 0 <= j < end - s implies #[trigger] a.subrange(s, end)[j] == b.subrange(
                s,
                end,
            )[j] by {
                assert(a.subrange(0, end)[s + j] == b.subrange(0, end)[s + j]);
                assert(a.subrange(0, end)[s + j] == a[s + j]);
                assert(b.subrange(0, end)[s + j] == b[s + j]);
            }
        }
        if s > 0 {
            assert(a.subrange(0, s - 1) =~= b.subrange(0, s - 1)) by {
                assert forall|j: int| 0 <= j < s - 1 implies #[trigger] a.subrange(0, s - 1)[j]
                    == b.subrange(0, s - 1)[j] by {
                    assert(a.subrange(0, end)[j] == b.subrange(0, end)[j]);
                    assert(a.subrange(0, end)[j] == a[j]);
                    assert(b.subrange(0, end)[j] == b[j]);
                }
            }
            lemma_candidates_prefix(a, b, s - 1);
        }
    }
}

/// The candidates of the lines after a newline at `off - 1` are those of
/// the appended text, moved right, followed by those before the newline.
proof fn lemma_candidates_after_newline(buf: Seq<u8>, s: Seq<u8>, e: int)
    requires
        0 <= e <= s.len(),
    ensures
        ({
            let big = buf + seq![0x0Au8] + s;
            let off: int = buf.len() as int + 1;
            ndjson_candidates(big, off + e) == shift_spans(ndjson_candidates(s, e), off)
                + ndjson_candidates(big, off - 1)
        }),
    decreases e,
{
    let big = buf + seq![0x0Au8] + s;
    let off: int = buf.len() as int + 1;
    assert(big[off - 1] == 0x0A);
    assert forall|j: int| 0 <= j < s.len() implies big[off + j] == s[j] by {}
    if e == 0 {
        lemma_line_start_unique(big, off, off);
        assert(big.subrange(off, off) =~= Seq::<u8>::empty());
        assert(shift_spans(Seq::<(int, int)>::empty(), off) =~= Seq::<(int, int)>::empty());
        assert(Seq::<(int, int)>::empty() + ndjson_candidates(big, off - 1) =~= ndjson_candidates(
            big,
            off - 1,
        ));
    } else {
        lemma_line_start(s, e);
        let ls = line_start(s, e);
        assert forall|j: int| off + ls <= j < off + e implies big[j] != 0x0A by {
            assert(big[j] == s[j - off]);
        }
        lemma_line_start_unique(big, off + e, off + ls);
        assert(big.subrange(off + ls, off + e) =~= s.subrange(ls, e));
        let te = trimmed_end_len(s.subrange(ls, e));
        assert(shift_spans(candidate_at(s, e), off) =~= candidate_at(big, off + e));
        if ls > 0 {
            lemma_candidates_after_newline(buf, s, ls - 1);
            let rest = ndjson_candidates(s, ls - 1);
            assert(shift_spans(candidate_at(s, e) + rest, off) =~= shift_spans(
                candidate_at(s, e),
                off,
            ) + shift_spans(rest, off));
            assert(ndjson_candidates(big, off + e) == candidate_at(big, off + e)
                + ndjson_candidates(big, off + ls - 1));
            assert(candidate_at(big, off + e) + (shift_spans(rest, off) + ndjson_candidates(
                big,
                off - 1,
            )) =~= (candidate_at(big, off + e) + shift_spans(rest, off)) + ndjson_candidates(
                big,
                off - 1,
            ));
        } else {
            assert(ndjson_candidates(s, e) == candidate_at(s, e));
            assert(ndjson_candidates(big, off + e) == candidate_at(big, off + e)
                + ndjson_candidates(big, off - 1));
        }
    }
}

/// The candidate lines of `buf`, each decoded by `decode`, in the order
/// they are tried.
pub open spec fn decoded_candidates(
    buf: Seq<u8>,
    decode: spec_fn(Seq<u8>) -> Option<OllamaDoneEvent>,
) -> Seq<Option<OllamaDoneEvent>> {
    ndjson_candidates(buf, buf.len() as int).map_values(
        |c: (int, int)| decode(buf.subrange(c.0, c.1)),
    )
}

proof fn lemma_first_final_event_skips(pre: Seq<Option<OllamaDoneEvent>>, rest: Seq<Option<OllamaDoneEvent>>)
    requires
        forall|i: int| 0 <= i < pre.len() ==> !(#[trigger] pre[i] is Some && is_final_event(pre[i]->0)),
    ensures
        first_final_event(pre + rest) == first_final_event(rest),
    decreases pre.len(),
{
    if pre.len() > 0 {
        assert((pre + rest)[0] == pre[0]);
        assert((pre + rest).drop_first() =~= pre.drop_first() + rest);
        assert forall|i: int| 0 <= i < pre.drop_first().len() implies !(
        #[trigger] pre.drop_first()[i] is Some && is_final_event(pre.drop_first()[i]->0)) by {
            assert(pre.drop_first()[i] == pre[i + 1]);
        }
        lemma_first_final_event_skips(pre.drop_first(), rest);
    } else {
        assert(pre + rest =~= rest);
    }
}

/// Appending lines after a newline changes nothing when none of them holds
/// a final event: the statistics are still those of the first final event
/// of the earlier text, whatever decoder turns lines into events.
pub proof fn lemma_unqualified_lines_change_nothing(
    buf: Seq<u8>,
    s: Seq<u8>,
    decode: spec_fn(Seq<u8>) -> Option<OllamaDoneEvent>,
)
    requires
        forall|i: int|
            0 <= i < decoded_candidates(s, decode).len() ==> !(
            #[trigger] decoded_candidates(s, decode)[i] is Some && is_final_event(
                decoded_candidates(s, decode)[i]->0,
            )),
    ensures
        first_final_event(decoded_candidates(buf + seq![0x0Au8] + s, decode)) == first_final_event(
            decoded_candidates(buf, decode),
        ),
{
    let big = buf + seq![0x0Au8] + s;
    let off: int = buf.len() as int + 1;
    lemma_candidates_after_newline(buf, s, s.len() as int);
    assert(big.subrange(0, buf.len() as int) =~= buf.subrange(0, buf.len() as int));
    lemma_candidates_prefix(big, buf, buf.len() as int);
    let cs = ndjson_candidates(s, s.len() as int);
    let cb = ndjson_candidates(buf, buf.len() as int);
    assert(ndjson_candidates(big, big.len() as int) == shift_spans(cs, off) + cb);
    lemma_ndjson_candidates_last_first(s, s.len() as int);
    lemma_ndjson_candidates_last_first(buf, buf.len() as int);
    let pre = shift_spans(cs, off).map_values(|c: (int, int)| decode(big.subrange(c.0, c.1)));
    let rest = cb.map_values(|c: (int, int)| decode(big.subrange(c.0, c.1)));
    assert(decoded_candidates(big, decode) =~= pre + rest);
    assert forall|i: int| 0 <= i < pre.len() implies pre[i] == decoded_candidates(s, decode)[i] by {
        let c = cs[i];
        assert(big.subrange(c.0 + off, c.1 + off) =~= s.subrange(c.0, c.1));
    }
    assert(rest =~= decoded_candidates(buf, decode)) by {
        assert forall|i: int| 0 <= i < rest.len() implies rest[i] == decoded_candidates(buf, decode)[i] by {
            let c = cb[i];
            assert(big.subrange(c.0, c.1) =~= buf.subrange(c.0, c.1));
        }
    }
    assert forall|i: int| 0 <= i < pre.len() implies !(#[trigger] pre[i] is Some && is_final_event(
        pre[i]->0,
    )) by {
        assert(pre[i] == decoded_candidates(s, decode)[i]);
    }
    lemma_first_final_event_skips(pre, rest);
}

/// The length of `buf[start..end]` without trailing ASCII whitespace.
fn trimmed_end(buf: &[u8], start: usize, end: usize) -> (n: usize)
    requires
        start <= end <= buf@.len(),
    ensures
        n == trimmed_end_len(buf@.subrange(start as int, end as int)),
{
    let mut e: usize = end;
    while e > start && (buf[e - 1] == 0x20 || buf[e - 1] == 0x09 || buf[e - 1] == 0x0A || buf[e
        - 1] == 0x0C || buf[e - 1] == 0x0D)
        invariant
            start <= e <= end <= buf@.len(),
            trimmed_end_len(buf@.subrange(start as int, end as int)) == trimmed_end_len(
                buf@.subrange(start as int, e as int),
            ),
        decreases e,
    {
        assert(buf@.subrange(start as int, e as int).drop_last() =~= buf@.subrange(
            start as int,
            e - 1,
        ));
        e = e - 1;
    }
    e - start
}

/// The start of the line that ends at `end`.
fn find_line_start(buf: &[u8], end: usize) -> (s: usize)
    requires
        end <= buf@.len(),
    ensures
        s == line_start(buf@, end as int),
        s <= end,
{
    reveal(line_start);
    let mut i: usize = end;
    while i > 0 && buf[i - 1] != 0x0A
        invariant
            i <= end <= buf@.len(),
            forall|j: int| i <= j < end ==> buf@[j] != 0x0A,
        decreases i,
    {
        i = i - 1;
    }
    reveal(line_start);
    if i == 0 {
        assert(!exists|k: int| 0 <= k < end && buf@[k] == 0x0A);
    } else {
        let ghost w = (i - 1) as int;
        assert(0 <= w < end && buf@[w] == 0x0A && forall|j: int| w < j < end ==> buf@[j] != 0x0A);
        let ghost c = choose|k: int|
            0 <= k < end && buf@[k] == 0x0A && forall|j: int| k < j < end ==> buf@[j] != 0x0A;
        assert(c == w) by {
            if c < w {
                assert(buf@[w] != 0x0A);
            } else if c > w {
                assert(buf@[c] != 0x0A);
            }
        }
    }
    i
}

/// The spans of the lines of an NDJSON body that may hold the final event,
/// in the order they are tried: last line first, blank lines left out.
pub fn ndjson_line_spans(buf: &[u8]) -> (r: Vec<(usize, usize)>)
    ensures
        spans_view(r@) == ndjson_candidates(buf@, buf@.len() as int),
{
    let mut out: Vec<(usize, usize)> = Vec::new();
    let mut end: usize = buf.len();
    let ghost total = buf@.len() as int;
    assert(spans_view(out@) =~= Seq::<(int, int)>::empty());
    loop
        invariant
            end <= buf@.len(),
            total == buf@.len(),
            ndjson_candidates(buf@, total) == spans_view(out@) + ndjson_candidates(buf@, end as int),
        decreases end,
    {
        if end == 0 {
            assert(spans_view(out@) + Seq::<(int, int)>::empty() =~= spans_view(out@));
            return out;
        }
        let ghost before = spans_view(out@);
        let start: usize = find_line_start(buf, end);
        let n: usize = trimmed_end(buf, start, end);
        proof {
            lemma_trimmed_end_len_bounds(buf@.subrange(start as int, end as int));
        }
        let ghost here = candidate_at(buf@, end as int);
        if n > 0 {
            let pair = (start, start + n);
            proof {
                lemma_spans_view_push(out@, pair);
            }
            out.push(pair);
            assert(spans_view(out@) =~= before + here);
        } else {
            assert(before =~= before + here);
        }
        if start == 0 {
            assert(ndjson_candidates(buf@, end as int) == here);
            assert(spans_view(out@) + Seq::<(int, int)>::empty() =~= spans_view(out@));
            return out;
        }
        assert(ndjson_candidates(buf@, end as int) == here + ndjson_candidates(buf@, start - 1));
        assert(before + (here + ndjson_candidates(buf@, start - 1)) =~= (before + here)
            + ndjson_candidates(buf@, start - 1));
        end = start - 1;
    }
}

/// The last event of a streamed Ollama response, with the fields the
/// proxy reads; each may be absent.
pub struct OllamaDoneEvent {
    pub model: Option<String>,
    pub done: Option<bool>,
    pub prompt_eval_count: Option<u64>,
    pub eval_count: Option<u64>,
    pub eval_duration: Option<u64>,
    pub prompt_eval_duration: Option<u64>,
    pub total_duration: Option<u64>,
}

/// The `usage` block of an OpenAI-style response.
pub struct OpenAIUsage {
    pub prompt_tokens: Option<u64>,
    pub completion_tokens: Option<u64>,
}

/// An OpenAI-style response, with the fields the proxy reads.
pub struct OpenAIChatResponse {
    pub model: Option<String>,
    pub usage: Option<OpenAIUsage>,
}

/// The integer statistics of one inference; durations in nanoseconds.
pub struct InferenceCounts {
    pub model: String,
    pub path: String,
    pub prompt_eval_count: Option<u64>,
    pub eval_count: Option<u64>,
    pub eval_duration_ns: Option<u64>,
    pub prompt_eval_duration_ns: Option<u64>,
    pub total_duration_ns: Option<u64>,
}

/// The text of an optional string, empty when absent.
pub open spec fn text_or_empty(o: Option<String>) -> Seq<char> {
    match o {
        Some(s) => s@,
        None => Seq::empty(),
    }
}

fn take_text(o: Option<String>) -> (s: String)
    ensures
        s@ == text_or_empty(o),
{
    match o {
        Some(s) => s,
        None => String::new(),
    }
}

/// The event is the final one of a stream: `done` is true and it has an
/// `eval_count`.
pub open spec fn is_final_event(evt: OllamaDoneEvent) -> bool {
    evt.done == Some(true) && evt.eval_count is Some
}

/// `c` holds the statistics of `evt` for a request to `path`.
pub open spec fn counts_of_event(c: InferenceCounts, evt: OllamaDoneEvent, path: Seq<char>) -> bool {
    &&& c.model@ == text_or_empty(evt.model)
    &&& c.path@ == path
    &&& c.prompt_eval_count == evt.prompt_eval_count
    &&& c.eval_count == evt.eval_count
    &&& c.eval_duration_ns == evt.eval_duration
    &&& c.prompt_eval_duration_ns == evt.prompt_eval_duration
    &&& c.total_duration_ns == evt.total_duration
}

/// The statistics of a streamed response, read from an event: only an event
/// with `done` set to true and an `eval_count` counts as the final one.
pub fn ndjson_counts(evt: OllamaDoneEvent, path: &str) -> (r: Option<InferenceCounts>)
    ensures
        r is Some <==> is_final_event(evt),
        r matches Some(c) ==> counts_of_event(c, evt, path@),
{
    let done = match evt.done {
        Some(d) => d,
        None => false,
    };
    if done && evt.eval_count.is_some() {
        Some(
            InferenceCounts {
                model: take_text(evt.model),
                path: path.to_owned(),
                prompt_eval_count: evt.prompt_eval_count,
                eval_count: evt.eval_count,
                eval_duration_ns: evt.eval_duration,
                prompt_eval_duration_ns: evt.prompt_eval_duration,
                total_duration_ns: evt.total_duration,
            },
        )
    } else {
        None
    }
}

/// The first final event among the decoded lines, in the order they are
/// tried (lines that did not decode are `None`).
pub open spec fn first_final_event(events: Seq<Option<OllamaDoneEvent>>) -> Option<OllamaDoneEvent>
    decreases events.len(),
{
    if events.len() == 0 {
        None
    } else if events[0] is Some && is_final_event(events[0]->0) {
        events[0]
    } else {
        first_final_event(events.drop_first())
    }
}

/// The statistics of a streamed response: those of the first final event
/// among its decoded lines, taken in the order `ndjson_line_spans` gives
/// them; `None` when no line holds a final event.
pub fn first_ndjson_counts(events: Vec<Option<OllamaDoneEvent>>, path: &str) -> (r: Option<
    InferenceCounts,
>)
    ensures
        match first_final_event(events@) {
            Some(e) => r matches Some(c) && counts_of_event(c, e, path@),
            None => r is None,
        },
{
    let mut rest = events;
    while rest.len() > 0
        invariant
            first_final_event(events@) == first_final_event(rest@),
        decreases rest@.len(),
    {
        let ghost before = rest@;
        let e = rest.remove(0);
        assert(rest@ =~= before.drop_first());
        if let Some(evt) = e {
            let ghost g = evt;
            if let Some(c) = ndjson_counts(evt, path) {
                assert(before[0] == Some(g) && is_final_event(g));
                assert(first_final_event(before) == Some(g));
                return Some(c);
            }
        }
    }
    None
}

/// The statistics of an OpenAI-style response: present exactly when it has
/// a `usage` block; it carries token counts and no durations.
pub fn openai_counts(resp: OpenAIChatResponse, path: &str) -> (r: Option<InferenceCounts>)
    ensures
        r is Some <==> resp.usage is Some,
        r matches Some(c) ==> {
            &&& c.model@ == text_or_empty(resp.model)
            &&& c.path@ == path@
            &&& c.prompt_eval_count == resp.usage->0.prompt_tokens
            &&& c.eval_count == resp.usage->0.completion_tokens
            &&& c.eval_duration_ns is None
            &&& c.prompt_eval_duration_ns is None
            &&& c.total_duration_ns is None
        },
{
    match resp.usage {
        Some(usage) => Some(
            InferenceCounts {
                model: take_text(resp.model),
                path: path.to_owned(),
                prompt_eval_count: usage.prompt_tokens,
                eval_count: usage.completion_tokens,
                eval_duration_ns: None,
                prompt_eval_duration_ns: None,
                total_duration_ns: None,
            },
        ),
        None => None,
    }
}

/// The token count and duration a rate (tokens per second) is computed
/// from: both must be present and the duration positive.
pub fn rate_inputs(count: Option<u64>, duration_ns: Option<u64>) -> (r: Option<(u64, u64)>)
    ensures
        r == (match (count, duration_ns) {
            (Some(c), Some(d)) => if d > 0 {
                Some((c, d))
            } else {
                None
            },
            _ => None,
        }),
{
    match (count, duration_ns) {
        (Some(c), Some(d)) => if d > 0 {
            Some((c, d))
        } else {
            None
        },
        _ => None,
    }
}

/// Watches a proxied response body for its statistics. While open it keeps
/// the bytes seen so far; it closes, dropping them, once the statistics are
/// found or more than `INSPECT_LIMIT` bytes came without them.
pub struct StreamInspector {
    buf: Vec<u8>,
    closed: bool,
}

impl StreamInspector {
    /// The bytes kept for inspection.
    pub closed spec fn pending(&self) -> Seq<u8> {
        self.buf@
    }

    /// Whether inspection has ended.
    pub closed spec fn is_closed(&self) -> bool {
        self.closed
    }

    /// A closed inspector keeps no bytes.
    pub open spec fn well_formed(&self) -> bool {
        self.is_closed() ==> self.pending().len() == 0
    }

    /// A new, open inspector with nothing kept.
    pub fn new() -> (s: Self)
        ensures
            !s.is_closed(),
            s.pending() == Seq::<u8>::empty(),
            s.well_formed(),
    {
        StreamInspector { buf: Vec::new(), closed: false }
    }

    /// Whether the inspector still wants the body's bytes.
    pub fn is_open(&self) -> (b: bool)
        ensures
            b == !self.is_closed(),
    {
        !self.closed
    }

    /// The bytes kept so far.
    pub fn buffer(&self) -> (b: &[u8])
        ensures
            b@ == self.pending(),
    {
        self.buf.as_slice()
    }

    /// Takes in a chunk of the body: an open inspector appends it to what it
    /// keeps; a closed one ignores it.
    pub fn absorb(&mut self, chunk: &[u8])
        ensures
            final(self).is_closed() == old(self).is_closed(),
            old(self).is_closed() ==> final(self).pending() == old(self).pending(),
            !old(self).is_closed() ==> final(self).pending() == old(self).pending() + chunk@,
            old(self).well_formed() ==> final(self).well_formed(),
    {
        if !self.closed {
            let ghost before = self.buf@;
            let mut i: usize = 0;
            while i < chunk.len()
                invariant
                    i <= chunk@.len(),
                    self.buf@ == before + chunk@.subrange(0, i as int),
                    !self.closed,
                decreases chunk.len() - i,
            {
                self.buf.push(chunk[i]);
                assert(before + chunk@.subrange(0, i + 1) =~= (before + chunk@.subrange(
                    0,
                    i as int,
                )).push(chunk@[i as int]));
                i = i + 1;
            }
            assert(chunk@.subrange(0, chunk@.len() as int) =~= chunk@);
        }
    }

    /// Records whether the kept bytes held the statistics. An open
    /// inspector closes, dropping its bytes, when they did or when it keeps
    /// more than `INSPECT_LIMIT` bytes; otherwise nothing changes.
    pub fn settle(&mut self, found: bool)
        ensures
            old(self).is_closed() ==> final(self).is_closed() && final(self).pending() == old(
                self,
            ).pending(),
            !old(self).is_closed() ==> if found || old(self).pending().len() > INSPECT_LIMIT {
                final(self).is_closed() && final(self).pending() == Seq::<u8>::empty()
            } else {
                !final(self).is_closed() && final(self).pending() == old(self).pending()
            },
            old(self).well_formed() ==> final(self).well_formed(),
            !final(self).is_closed() ==> final(self).pending().len() <= INSPECT_LIMIT,
    {
        if !self.closed {
            if found || self.buf.len() > INSPECT_LIMIT {
                self.closed = true;
                self.buf = Vec::new();
            }
        }
    }
}

} // verus!
