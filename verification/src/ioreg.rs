//! Reading GPU statistics out of the text that `ioreg` prints for the
//! accelerator: `"Key"=value` pairs with integer values.

use crate::text::{
    decimal_digits, find_bytes, first_occurrence, is_digit_byte, lemma_decimal_digits_value,
    lemma_parse_signed_decimal, occurs_at, parse_i64, parse_i64_spec, signed_decimal,
};
use vstd::prelude::*;
use vstd::string::StringSliceAdditionalSpecFns;

verus! {

/// Key of the device utilisation, in percent.
pub const DEVICE_UTILIZATION_KEY: &'static str = "Device Utilization %";

/// Key of the system memory that the GPU has in use, in bytes.
pub const IN_USE_MEMORY_KEY: &'static str = "In use system memory";

/// The text searched for a key: the key in double quotes, then `=`.
pub open spec fn kv_needle(key: Seq<u8>) -> Seq<u8> {
    seq![0x22u8] + key + seq![0x22u8, 0x3Du8]
}

/// A byte that may belong to an integer value: an ASCII digit or `-`.
pub open spec fn is_number_byte(b: u8) -> bool {
    is_digit_byte(b) || b == 0x2D
}

/// `k` is the length of the longest prefix of `s` made of number bytes.
pub open spec fn is_number_run(s: Seq<u8>, k: int) -> bool {
    &&& 0 <= k <= s.len()
    &&& forall|j: int| 0 <= j < k ==> is_number_byte(#[trigger] s[j])
    &&& (k == s.len() || !is_number_byte(s[k]))
}

/// The length of the longest prefix of `s` made of number bytes.
pub open spec fn number_run_len(s: Seq<u8>) -> int {
    choose|k: int| is_number_run(s, k)
}

/// The integer after the first `"key"=` in `h`: the run of digits and `-`
/// that follows it, read as `i64::from_str` reads it.
pub open spec fn kv_int_spec(h: Seq<u8>, key: Seq<u8>) -> Option<i64> {
    match first_occurrence(h, kv_needle(key)) {
        Some(i) => {
            let rest = h.subrange(i + kv_needle(key).len(), h.len() as int);
            parse_i64_spec(rest.subrange(0, number_run_len(rest)))
        },
        None => None,
    }
}

/// A value written as `"key"=<decimal>` at the start of the text is read
/// back exactly, whatever follows it, provided it does not continue the
/// number.
pub proof fn lemma_kv_int_reads_back(key: Seq<u8>, v: i64, tail: Seq<u8>)
    requires
        tail.len() == 0 || !is_number_byte(tail[0]),
    ensures
        kv_int_spec(kv_needle(key) + signed_decimal(v) + tail, key) == Some(v),
{
    let n = kv_needle(key);
    let d = signed_decimal(v);
    let h = n + d + tail;
    assert(occurs_at(h, n, 0)) by {
        assert(h.subrange(0, n.len() as int) =~= n);
    }
    reveal(first_occurrence);
    let c = choose|i: int| occurs_at(h, n, i) && forall|j: int| 0 <= j < i ==> !occurs_at(h, n, j);
    assert(c == 0) by {
        if c > 0 {
            assert(!occurs_at(h, n, 0));
        }
    }
    let rest = h.subrange(n.len() as int, h.len() as int);
    assert(rest =~= d + tail);
    if v < 0 {
        lemma_decimal_digits_value((-v) as nat);
    } else {
        lemma_decimal_digits_value(v as nat);
    }
    assert forall|j: int| 0 <= j < d.len() implies is_number_byte(#[trigger] d[j]) by {
        if v < 0 && j > 0 {
            assert(d[j] == decimal_digits((-v) as nat)[j - 1]);
        }
    }
    assert(is_number_run(rest, d.len() as int)) by {
        assert forall|j: int| 0 <= j < d.len() implies is_number_byte(#[trigger] rest[j]) by {
            assert(rest[j] == d[j]);
        }
        if d.len() < rest.len() {
            assert(rest[d.len() as int] == tail[0]);
        }
    }
    let k = number_run_len(rest);
    assert(k == d.len()) by {
        assert(is_number_run(rest, k));
        if k < d.len() {
            assert(is_number_byte(rest[k]));
            assert(rest[k] == d[k]);
        } else if k > d.len() {
            assert(is_number_byte(rest[d.len() as int]));
        }
    }
    assert(rest.subrange(0, k) =~= d);
    lemma_parse_signed_decimal(v);
}

/// The needle of a key with no `"` and no `=` cannot start inside a text
/// and run on into a needle that follows it.
proof fn lemma_needle_not_straddling(p: Seq<u8>, key: Seq<u8>, rest: Seq<u8>, j: int)
    requires
        forall|i: int| 0 <= i < key.len() ==> #[trigger] key[i] != 0x22u8 && key[i] != 0x3Du8,
        0 <= j < p.len(),
        p.len() < j + kv_needle(key).len(),
    ensures
        !occurs_at(p + kv_needle(key) + rest, kv_needle(key), j),
{
    let n = kv_needle(key);
    let h = p + n + rest;
    let pl = p.len() as int;
    let d = pl - j;
    if occurs_at(h, n, j) {
        assert(h.subrange(j, j + n.len()) == n);
        assert(h[pl] == n[0]);
        assert(h[pl] == h.subrange(j, j + n.len())[d]);
        assert(n[d] == 0x22u8);
        if 1 <= d <= key.len() {
            assert(n[d] == key[d - 1]);
        }
        assert(d == key.len() + 1);
        assert(h[pl + 1] == h.subrange(j, j + n.len())[d + 1]);
        assert(n[d + 1] == 0x3Du8);
        assert(h[pl + 1] == n[1]);
        if key.len() > 0 {
            assert(n[1] == key[0]);
        }
    }
}

/// The value is read wherever the key first occurs: after any text that
/// does not hold `"key"=`, a value written as `"key"=<decimal>` is read
/// back exactly, whatever follows it that does not continue the number.
/// Keys are names without `"` or `=`, as the ones read here are.
pub proof fn lemma_kv_int_reads_back_anywhere(p: Seq<u8>, key: Seq<u8>, v: i64, tail: Seq<u8>)
    requires
        forall|i: int| 0 <= i < key.len() ==> #[trigger] key[i] != 0x22u8 && key[i] != 0x3Du8,
        forall|j: int| !occurs_at(p, kv_needle(key), j),
        tail.len() == 0 || !is_number_byte(tail[0]),
    ensures
        kv_int_spec(p + kv_needle(key) + signed_decimal(v) + tail, key) == Some(v),
{
    let n = kv_needle(key);
    let d = signed_decimal(v);
    let h = p + n + d + tail;
    let pl = p.len() as int;
    assert(h =~= p + n + (d + tail));
    assert(occurs_at(h, n, pl)) by {
        assert(h.subrange(pl, pl + n.len()) =~= n);
    }
    assert forall|j: int| 0 <= j < pl implies !occurs_at(h, n, j) by {
        if j + n.len() <= pl {
            assert(h.subrange(j, j + n.len()) =~= p.subrange(j, j + n.len()));
            assert(!occurs_at(p, n, j));
        } else {
            lemma_needle_not_straddling(p, key, d + tail, j);
        }
    }
    reveal(first_occurrence);
    let c = choose|i: int| occurs_at(h, n, i) && forall|j: int| 0 <= j < i ==> !occurs_at(h, n, j);
    assert(c == pl) by {
        if c > pl {
            assert(!occurs_at(h, n, pl));
        }
    }
    let rest = h.subrange(pl + n.len(), h.len() as int);
    assert(rest =~= d + tail);
    if v < 0 {
        lemma_decimal_digits_value((-v) as nat);
    } else {
        lemma_decimal_digits_value(v as nat);
    }
    assert forall|j: int| 0 <= j < d.len() implies is_number_byte(#[trigger] d[j]) by {
        if v < 0 && j > 0 {
            assert(d[j] == decimal_digits((-v) as nat)[j - 1]);
        }
    }
    assert(is_number_run(rest, d.len() as int)) by {
        assert forall|j: int| 0 <= j < d.len() implies is_number_byte(#[trigger] rest[j]) by {
            assert(rest[j] == d[j]);
        }
        if d.len() < rest.len() {
            assert(rest[d.len() as int] == tail[0]);
        }
    }
    let k = number_run_len(rest);
    assert(k == d.len()) by {
        assert(is_number_run(rest, k));
        if k < d.len() {
            assert(is_number_byte(rest[k]));
            assert(rest[k] == d[k]);
        } else if k > d.len() {
            assert(is_number_byte(rest[d.len() as int]));
        }
    }
    assert(rest.subrange(0, k) =~= d);
    lemma_parse_signed_decimal(v);
}

/// Builds the text searched for a key: `"key"=`.
fn needle_for(k: &[u8]) -> (needle: Vec<u8>)
    ensures
        needle@ == kv_needle(k@),
{
    let mut needle: Vec<u8> = Vec::new();
    needle.push(0x22u8);
    let mut j: usize = 0;
    while j < k.len()
        invariant
            j <= k@.len(),
            needle@ == seq![0x22u8] + k@.subrange(0, j as int),
        decreases k.len() - j,
    {
        needle.push(k[j]);
        assert(k@.subrange(0, j + 1) =~= k@.subrange(0, j as int).push(k@[j as int]));
        j = j + 1;
    }
    needle.push(0x22u8);
    needle.push(0x3Du8);
    assert(k@.subrange(0, k@.len() as int) =~= k@);
    assert(needle@ =~= kv_needle(k@));
    needle
}

/// The end of the run of number bytes that starts at `start`.
fn number_run_end(h: &[u8], start: usize) -> (end: usize)
    requires
        start <= h@.len(),
    ensures
        start <= end <= h@.len(),
        end - start == number_run_len(h@.subrange(start as int, h@.len() as int)),
{
    let ghost rest = h@.subrange(start as int, h@.len() as int);
    let mut end: usize = start;
    while end < h.len() && (h[end] == 0x2D || (0x30 <= h[end] && h[end] <= 0x39))
        invariant
            start <= end <= h@.len(),
            rest == h@.subrange(start as int, h@.len() as int),
            forall|m: int| 0 <= m < end - start ==> is_number_byte(#[trigger] rest[m]),
        decreases h.len() - end,
    {
        end = end + 1;
    }
    assert(is_number_run(rest, end - start));
    assert(number_run_len(rest) == end - start) by {
        let c = number_run_len(rest);
        assert(is_number_run(rest, c));
        if c < end - start {
            assert(is_number_byte(rest[c]));
        } else if c > end - start {
            assert(is_number_byte(rest[end - start]));
        }
    }
    end
}

/// Reads the integer value of `"key"=` in `haystack`; `None` when the key
/// is absent or its value does not read as an `i64`.
pub fn extract_kv_int(haystack: &str, key: &str) -> (r: Option<i64>)
    ensures
        r == kv_int_spec(haystack.spec_bytes(), key.spec_bytes()),
{
    let h = haystack.as_bytes();
    let hl: usize = h.len();
    let needle = needle_for(key.as_bytes());
    let n = needle.as_slice();
    assert(n@ == kv_needle(key.spec_bytes()));
    match find_bytes(h, n) {
        None => None,
        Some(idx) => {
            assert(idx + n@.len() <= hl);
            let start: usize = idx + n.len();
            let end: usize = number_run_end(h, start);
            let ghost rest = h@.subrange(start as int, h@.len() as int);
            assert(rest.subrange(0, end - start) =~= h@.subrange(start as int, end as int));
            parse_i64(h, start, end)
        },
    }
}

/// The integers that the GPU sampler reads from `ioreg` output.
pub struct PerfCounters {
    /// Device utilisation in percent, when present.
    pub device_util: Option<i64>,
    /// System memory in use by the GPU, in bytes; 0 when absent.
    pub in_use_bytes: u64,
}

/// Reads the device utilisation and the memory in use from `ioreg` output.
/// A negative memory value is reinterpreted as `u64`, as an `as` cast does.
pub fn parse_perf_counters(ioreg_output: &str) -> (r: PerfCounters)
    ensures
        r.device_util == kv_int_spec(ioreg_output.spec_bytes(), DEVICE_UTILIZATION_KEY.spec_bytes()),
        r.in_use_bytes == (match kv_int_spec(
            ioreg_output.spec_bytes(),
            IN_USE_MEMORY_KEY.spec_bytes(),
        ) {
            Some(v) => v as u64,
            None => 0u64,
        }),
{
    let device_util = extract_kv_int(ioreg_output, DEVICE_UTILIZATION_KEY);
    let in_use_bytes = match extract_kv_int(ioreg_output, IN_USE_MEMORY_KEY) {
        Some(v) => v as u64,
        None => 0,
    };
    PerfCounters { device_util, in_use_bytes }
}

} // verus!
