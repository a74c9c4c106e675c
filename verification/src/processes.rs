//! Per-process drill-down: which kinds of metric can be listed, the ranking
//! of processes by resident memory, and the human-readable memory sizes.

use crate::text::{decimal_chars, digit_char, push_decimal, str_eq};
use vstd::prelude::*;

verus! {

/// What a drill-down request for a kind of metric leads to.
pub enum KindPlan {
    /// Sample per-process CPU usage.
    Cpu,
    /// Rank processes by resident memory.
    Ram,
    /// No per-process figures; the note says why.
    Unavailable(String),
}

/// The note given for GPU and VRAM drill-downs.
pub const GPU_NOTE: &'static str = "Per-process GPU metrics require sudo (powermetrics) — disabled by design.";

/// The prefix of the note given for an unknown kind.
pub const UNKNOWN_KIND_PREFIX: &'static str = "Unknown kind: ";

/// Decides what a drill-down for `kind` does: `cpu` and `ram` are sampled,
/// `gpu` and `vram` are refused with a note, anything else is reported as an
/// unknown kind.
pub fn plan_for_kind(kind: &str) -> (p: KindPlan)
    ensures
        kind@ == "cpu"@ ==> p is Cpu,
        kind@ == "ram"@ ==> p is Ram,
        (kind@ == "gpu"@ || kind@ == "vram"@) ==> (p matches KindPlan::Unavailable(note)
            && note@ == GPU_NOTE@),
        (kind@ != "cpu"@ && kind@ != "ram"@ && kind@ != "gpu"@ && kind@ != "vram"@) ==> (
        p matches KindPlan::Unavailable(note) && note@ == UNKNOWN_KIND_PREFIX@ + kind@),
{
    proof {
        reveal_strlit("cpu");
        reveal_strlit("ram");
        reveal_strlit("gpu");
        reveal_strlit("vram");
        assert("cpu"@ =~= seq!['c', 'p', 'u']);
        assert("ram"@ =~= seq!['r', 'a', 'm']);
        assert("gpu"@ =~= seq!['g', 'p', 'u']);
        assert("vram"@ =~= seq!['v', 'r', 'a', 'm']);
    }
    if str_eq(kind, "cpu") {
        KindPlan::Cpu
    } else if str_eq(kind, "ram") {
        KindPlan::Ram
    } else if str_eq(kind, "gpu") || str_eq(kind, "vram") {
        KindPlan::Unavailable(String::from_str(GPU_NOTE))
    } else {
        let mut note = String::from_str(UNKNOWN_KIND_PREFIX);
        note.append(kind);
        KindPlan::Unavailable(note)
    }
}

/// Distance between neighbouring `f64` values around `b`: 1 below 2^53,
/// doubling with each further binary digit.
pub open spec fn f64_spacing(b: nat) -> nat
    decreases b,
{
    if b < 0x20_0000_0000_0000 {
        1
    } else {
        2 * f64_spacing(b / 2)
    }
}

/// `n / d` rounded to the nearest integer, ties to the even one.
pub open spec fn round_div_even(n: nat, d: nat) -> nat {
    let q = n / d;
    let r = n % d;
    if 2 * r > d || (2 * r == d && q % 2 == 1) {
        q + 1
    } else {
        q
    }
}

/// The exact value of `b as f64`: `b` rounded to the nearest multiple of the
/// `f64` spacing at `b`, ties to an even significand.
pub open spec fn f64_image(b: u64) -> nat {
    round_div_even(b as nat, f64_spacing(b as nat)) * f64_spacing(b as nat)
}

/// Rounds `n / d` to the nearest integer, ties to even.
fn round_div_even_exec(n: u128, d: u128) -> (q: u128)
    requires
        d > 0,
        n / d < u128::MAX,
    ensures
        q == round_div_even(n as nat, d as nat),
{
    let q: u128 = n / d;
    let r: u128 = n % d;
    if r > d - r || (r == d - r && q % 2 == 1) {
        q + 1
    } else {
        q
    }
}

/// The exact integer value of `b as f64`.
pub fn f64_image_exec(b: u64) -> (v: u128)
    ensures
        v == f64_image(b),
        v <= 0x1_0000_0000_0000_1000,
{
    let mut t: u64 = b;
    let mut p: u64 = 1;
    while t >= 0x20_0000_0000_0000
        invariant
            1 <= p <= 0x1000,
            t as nat == b as nat / p as nat,
            f64_spacing(b as nat) == p * f64_spacing(t as nat),
        decreases t,
    {
        proof {
            vstd::arithmetic::div_mod::lemma_div_denominator(b as int, p as int, 2);
            vstd::arithmetic::div_mod::lemma_fundamental_div_mod(b as int, p as int);
            assert(t * p <= b) by (nonlinear_arith)
                requires
                    t as int == b as int / p as int,
                    b as int == p * (b as int / p as int) + b as int % p as int,
                    b as int % p as int >= 0,
            ;
            assert(p * 0x20_0000_0000_0000 <= t * p) by (nonlinear_arith)
                requires
                    t >= 0x20_0000_0000_0000,
                    p >= 1,
            ;
            assert(p * 2 <= 0x1000) by (nonlinear_arith)
                requires
                    p * 0x20_0000_0000_0000 <= b,
                    b <= u64::MAX,
            ;
        }
        assert(f64_spacing(t as nat) == 2 * f64_spacing(t as nat / 2));
        t = t / 2;
        p = p * 2;
        assert(f64_spacing(b as nat) == p * f64_spacing(t as nat)) by (nonlinear_arith)
            requires
                f64_spacing(b as nat) == (p / 2) * (2 * f64_spacing(t as nat)),
                p % 2 == 0,
        ;
    }
    assert(f64_spacing(t as nat) == 1);
    assert(p == f64_spacing(b as nat)) by (nonlinear_arith)
        requires
            f64_spacing(b as nat) == p * f64_spacing(t as nat),
            f64_spacing(t as nat) == 1,
    ;
    proof {
        vstd::arithmetic::div_mod::lemma_fundamental_div_mod(b as int, p as int);
    }
    let q: u128 = round_div_even_exec(b as u128, p as u128);
    assert(q <= b as nat / p as nat + 1);
    assert(q * p <= b + p) by (nonlinear_arith)
        requires
            q <= b as nat / p as nat + 1,
            b as int == p * (b as int / p as int) + b as int % p as int,
            b as int % p as int >= 0,
            p >= 1,
    ;
    q * (p as u128)
}

/// The text of a memory size as the drill-down shows it: `b as f64` bytes
/// in GiB with two decimals when it comes to at least 1 GiB, otherwise in
/// MiB with none; decimals are rounded to nearest, ties to even, as Rust
/// formats an `f64`.
pub open spec fn fmt_bytes_spec(b: u64) -> Seq<char> {
    let v = f64_image(b);
    if v >= 0x4000_0000 {
        let c = round_div_even(v * 100, 0x4000_0000);
        decimal_chars(c / 100) + seq!['.', digit_char((c % 100) / 10), digit_char(c % 10)] + seq![
            ' ',
            'G',
            'B',
        ]
    } else {
        decimal_chars(round_div_even(v, 0x10_0000)) + seq![' ', 'M', 'B']
    }
}

/// Formats a byte count as `"{:.2} GB"` or `"{:.0} MB"`.
pub fn fmt_bytes(b: u64) -> (s: String)
    ensures
        s@ == fmt_bytes_spec(b),
{
    let v: u128 = f64_image_exec(b);
    let mut out = String::new();
    if v >= 0x4000_0000 {
        let c: u128 = round_div_even_exec(v * 100, 0x4000_0000);
        push_decimal(&mut out, c / 100);
        proof {
            reveal_strlit(".");
            reveal_strlit(" GB");
        }
        out.append(".");
        push_decimal(&mut out, (c % 100) / 10);
        push_decimal(&mut out, c % 10);
        out.append(" GB");
        assert(out@ =~= fmt_bytes_spec(b));
    } else {
        let m: u128 = round_div_even_exec(v, 0x10_0000);
        push_decimal(&mut out, m);
        proof {
            reveal_strlit(" MB");
        }
        out.append(" MB");
        assert(out@ =~= fmt_bytes_spec(b));
    }
    out
}

/// A process and its resident memory, as the sampler read them.
pub struct MemoryRow {
    pub pid: u32,
    pub name: String,
    pub bytes: u64,
}

impl View for MemoryRow {
    type V = (u32, Seq<char>, u64);

    open spec fn view(&self) -> (u32, Seq<char>, u64) {
        (self.pid, self.name@, self.bytes)
    }
}

/// A row of the memory drill-down: the process, its memory and the text
/// shown for it.
pub struct RankedProcess {
    pub pid: u32,
    pub name: String,
    pub bytes: u64,
    pub display: String,
}

impl RankedProcess {
    /// The process this row stands for.
    pub open spec fn entry(&self) -> (u32, Seq<char>, u64) {
        (self.pid, self.name@, self.bytes)
    }
}

/// What processes are ranked by: their memory as an `f64`.
pub open spec fn memory_key(e: (u32, Seq<char>, u64)) -> nat {
    f64_image(e.2)
}

/// Inserts `x` into `t` before the first entry whose key is not larger.
pub open spec fn insert_ranked(t: Seq<(u32, Seq<char>, u64)>, x: (u32, Seq<char>, u64)) -> Seq<
    (u32, Seq<char>, u64),
>
    decreases t.len(),
{
    if t.len() == 0 || memory_key(t[0]) <= memory_key(x) {
        seq![x] + t
    } else {
        seq![t[0]] + insert_ranked(t.drop_first(), x)
    }
}

/// The entries ordered by decreasing key; entries with equal keys keep
/// their order (a stable sort).
pub open spec fn rank_by_memory_spec(s: Seq<(u32, Seq<char>, u64)>) -> Seq<(u32, Seq<char>, u64)>
    decreases s.len(),
{
    if s.len() == 0 {
        s
    } else {
        insert_ranked(rank_by_memory_spec(s.drop_first()), s[0])
    }
}

proof fn lemma_insert_ranked_at(t: Seq<(u32, Seq<char>, u64)>, x: (u32, Seq<char>, u64), j: int)
    requires
        0 <= j <= t.len(),
        forall|k: int| 0 <= k < j ==> memory_key(#[trigger] t[k]) > memory_key(x),
        j == t.len() || memory_key(t[j]) <= memory_key(x),
    ensures
        insert_ranked(t, x) == t.insert(j, x),
    decreases t.len(),
{
    if j == 0 {
        assert(seq![x] + t =~= t.insert(0, x));
    } else {
        let u = t.drop_first();
        assert forall|k: int| 0 <= k < j - 1 implies memory_key(#[trigger] u[k]) > memory_key(x) by {
            assert(u[k] == t[k + 1]);
        }
        lemma_insert_ranked_at(u, x, j - 1);
        assert(seq![t[0]] + u.insert(j - 1, x) =~= t.insert(j, x));
    }
}

/// Entries are in non-increasing order of key.
pub open spec fn is_ranked(t: Seq<(u32, Seq<char>, u64)>) -> bool {
    forall|i: int, j: int| 0 <= i < j < t.len() ==> memory_key(#[trigger] t[i]) >= memory_key(#[trigger] t[j])
}

proof fn lemma_insert_ranked_shape(t: Seq<(u32, Seq<char>, u64)>, x: (u32, Seq<char>, u64))
    ensures
        exists|j: int| 0 <= j <= t.len() && insert_ranked(t, x) == t.insert(j, x),
    decreases t.len(),
{
    if t.len() == 0 || memory_key(t[0]) <= memory_key(x) {
        assert(insert_ranked(t, x) == t.insert(0, x)) by {
            assert(seq![x] + t =~= t.insert(0, x));
        }
    } else {
        let u = t.drop_first();
        lemma_insert_ranked_shape(u, x);
        let j = choose|j: int| 0 <= j <= u.len() && insert_ranked(u, x) == u.insert(j, x);
        assert(seq![t[0]] + u.insert(j, x) =~= t.insert(j + 1, x));
    }
}

proof fn lemma_insert_ranked_keeps_order(t: Seq<(u32, Seq<char>, u64)>, x: (u32, Seq<char>, u64))
    requires
        is_ranked(t),
    ensures
        is_ranked(insert_ranked(t, x)),
    decreases t.len(),
{
    if t.len() == 0 || memory_key(t[0]) <= memory_key(x) {
        let r = seq![x] + t;
        assert forall|i: int, j: int| 0 <= i < j < r.len() implies memory_key(#[trigger] r[i])
            >= memory_key(#[trigger] r[j]) by {
            if i == 0 {
                assert(r[j] == t[j - 1]);
                if j - 1 > 0 {
                    assert(memory_key(t[0]) >= memory_key(t[j - 1]));
                }
            } else {
                assert(r[i] == t[i - 1] && r[j] == t[j - 1]);
            }
        }
    } else {
        let u = t.drop_first();
        assert(is_ranked(u)) by {
            assert forall|i: int, j: int| 0 <= i < j < u.len() implies memory_key(#[trigger] u[i])
                >= memory_key(#[trigger] u[j]) by {
                assert(u[i] == t[i + 1] && u[j] == t[j + 1]);
            }
        }
        lemma_insert_ranked_keeps_order(u, x);
        lemma_insert_ranked_shape(u, x);
        let k = choose|k: int| 0 <= k <= u.len() && insert_ranked(u, x) == u.insert(k, x);
        let v = insert_ranked(u, x);
        let r = seq![t[0]] + v;
        assert forall|i: int, j: int| 0 <= i < j < r.len() implies memory_key(#[trigger] r[i])
            >= memory_key(#[trigger] r[j]) by {
            if i == 0 {
                assert(r[j] == v[j - 1]);
                if j - 1 == k {
                    assert(v[j - 1] == x);
                } else if j - 1 < k {
                    assert(v[j - 1] == u[j - 1]);
                    assert(u[j - 1] == t[j]);
                } else {
                    assert(v[j - 1] == u[j - 2]);
                    assert(u[j - 2] == t[j - 1]);
                }
            } else {
                assert(r[i] == v[i - 1] && r[j] == v[j - 1]);
            }
        }
    }
}

/// Ranking orders the processes by non-increasing memory.
pub proof fn lemma_rank_by_memory_ordered(s: Seq<(u32, Seq<char>, u64)>)
    ensures
        is_ranked(rank_by_memory_spec(s)),
    decreases s.len(),
{
    if s.len() > 0 {
        lemma_rank_by_memory_ordered(s.drop_first());
        lemma_insert_ranked_keeps_order(rank_by_memory_spec(s.drop_first()), s[0]);
    }
}

/// Ranking neither drops nor adds processes: the result is a permutation of
/// its input.
pub proof fn lemma_rank_by_memory_permutes(s: Seq<(u32, Seq<char>, u64)>)
    ensures
        rank_by_memory_spec(s).to_multiset() == s.to_multiset(),
    decreases s.len(),
{
    broadcast use vstd::seq_lib::group_to_multiset_ensures;

    if s.len() > 0 {
        let u = s.drop_first();
        lemma_rank_by_memory_permutes(u);
        lemma_insert_ranked_shape(rank_by_memory_spec(u), s[0]);
        let j = choose|j: int|
            0 <= j <= rank_by_memory_spec(u).len() && insert_ranked(rank_by_memory_spec(u), s[0])
                == rank_by_memory_spec(u).insert(j, s[0]);
        vstd::seq_lib::to_multiset_insert(rank_by_memory_spec(u), j, s[0]);
        assert(s =~= u.insert(0, s[0]));
        vstd::seq_lib::to_multiset_insert(u, 0, s[0]);
    }
}

/// The entries whose key is `k`.
pub open spec fn keyed(k: nat) -> spec_fn((u32, Seq<char>, u64)) -> bool {
    |e: (u32, Seq<char>, u64)| memory_key(e) == k
}

proof fn lemma_filter_single(x: (u32, Seq<char>, u64), k: nat)
    ensures
        seq![x].filter(keyed(k)) == (if memory_key(x) == k {
            seq![x]
        } else {
            Seq::<(u32, Seq<char>, u64)>::empty()
        }),
{
    reveal_with_fuel(Seq::filter, 2);
    assert(seq![x].drop_last() =~= Seq::<(u32, Seq<char>, u64)>::empty());
}

proof fn lemma_insert_ranked_keyed(t: Seq<(u32, Seq<char>, u64)>, x: (u32, Seq<char>, u64), k: nat)
    ensures
        insert_ranked(t, x).filter(keyed(k)) == (if memory_key(x) == k {
            seq![x] + t.filter(keyed(k))
        } else {
            t.filter(keyed(k))
        }),
    decreases t.len(),
{
    broadcast use Seq::filter_distributes_over_add;

    lemma_filter_single(x, k);
    if t.len() == 0 || memory_key(t[0]) <= memory_key(x) {
        assert(seq![x].filter(keyed(k)) + t.filter(keyed(k)) == (seq![x] + t).filter(keyed(k)));
        if memory_key(x) != k {
            assert(Seq::<(u32, Seq<char>, u64)>::empty() + t.filter(keyed(k)) =~= t.filter(
                keyed(k),
            ));
        }
    } else {
        let u = t.drop_first();
        lemma_insert_ranked_keyed(u, x, k);
        lemma_filter_single(t[0], k);
        assert(t =~= seq![t[0]] + u);
        assert((seq![t[0]] + insert_ranked(u, x)).filter(keyed(k)) == seq![t[0]].filter(keyed(k))
            + insert_ranked(u, x).filter(keyed(k)));
        assert((seq![t[0]] + u).filter(keyed(k)) == seq![t[0]].filter(keyed(k)) + u.filter(
            keyed(k),
        ));
        if memory_key(t[0]) == k {
            assert(memory_key(x) != k);
        } else {
            assert(Seq::<(u32, Seq<char>, u64)>::empty() + u.filter(keyed(k)) =~= u.filter(
                keyed(k),
            ));
            assert(Seq::<(u32, Seq<char>, u64)>::empty() + insert_ranked(u, x).filter(keyed(k))
                =~= insert_ranked(u, x).filter(keyed(k)));
        }
    }
}

/// Ranking is stable: processes with equal memory keep the order in which
/// they were given.
pub proof fn lemma_rank_by_memory_stable(s: Seq<(u32, Seq<char>, u64)>, k: nat)
    ensures
        rank_by_memory_spec(s).filter(keyed(k)) == s.filter(keyed(k)),
    decreases s.len(),
{
    broadcast use Seq::filter_distributes_over_add;

    if s.len() > 0 {
        let u = s.drop_first();
        lemma_rank_by_memory_stable(u, k);
        lemma_insert_ranked_keyed(rank_by_memory_spec(u), s[0], k);
        lemma_filter_single(s[0], k);
        assert(s =~= seq![s[0]] + u);
        assert((seq![s[0]] + u).filter(keyed(k)) == seq![s[0]].filter(keyed(k)) + u.filter(
            keyed(k),
        ));
        if memory_key(s[0]) != k {
            assert(Seq::<(u32, Seq<char>, u64)>::empty() + u.filter(keyed(k)) =~= u.filter(
                keyed(k),
            ));
        }
    }
}

/// The memory drill-down: processes by decreasing memory (as `f64`, equal
/// values in the order given), the first `limit` of them, each with its
/// size as text.
pub fn rank_by_memory(rows: Vec<MemoryRow>, limit: usize) -> (r: Vec<RankedProcess>)
    ensures
        r@.len() == (if limit < rows@.len() {
            limit as int
        } else {
            rows@.len() as int
        }),
        forall|i: int|
            0 <= i < r@.len() ==> (#[trigger] r@[i]).entry() == rank_by_memory_spec(
                rows@.map_values(|m: MemoryRow| m@),
            )[i] && r@[i].display@ == fmt_bytes_spec(r@[i].bytes),
{
    let ghost s = rows@.map_values(|m: MemoryRow| m@);
    let ghost n = rows@.len();
    let mut rows = rows;
    let mut out: Vec<RankedProcess> = Vec::new();
    assert(s.skip(n as int) =~= Seq::<(u32, Seq<char>, u64)>::empty());
    assert(out@.map_values(|p: RankedProcess| p.entry()) =~= Seq::<
        (u32, Seq<char>, u64),
    >::empty());
    while rows.len() > 0
        invariant
            n == s.len(),
            rows@.len() <= n,
            forall|k: int| 0 <= k < rows@.len() ==> (#[trigger] rows@[k])@ == s[k],
            out@.map_values(|p: RankedProcess| p.entry()) == rank_by_memory_spec(
                s.skip(rows@.len() as int),
            ),
            out@.len() == n - rows@.len(),
            forall|k: int|
                0 <= k < out@.len() ==> (#[trigger] out@[k]).display@ == fmt_bytes_spec(
                    out@[k].bytes,
                ),
        decreases rows@.len(),
    {
        let ghost i = rows@.len() - 1;
        let ghost before = out@.map_values(|p: RankedProcess| p.entry());
        let row = rows.pop().unwrap();
        assert(row@ == s[i]);
        let key: u128 = f64_image_exec(row.bytes);
        let mut j: usize = 0;
        while j < out.len() && f64_image_exec(out[j].bytes) > key
            invariant
                j <= out@.len(),
                key == f64_image(row.bytes),
                before == out@.map_values(|p: RankedProcess| p.entry()),
                forall|k: int| 0 <= k < j ==> memory_key(#[trigger] before[k]) > key,
            decreases out@.len() - j,
        {
            j = j + 1;
        }
        let display = fmt_bytes(row.bytes);
        let entry = RankedProcess { pid: row.pid, name: row.name, bytes: row.bytes, display };
        assert(entry.entry() == s[i]);
        out.insert(j, entry);
        proof {
            lemma_insert_ranked_at(before, s[i], j as int);
            assert(s.skip(i).drop_first() =~= s.skip(i + 1));
            assert(s.skip(i)[0] == s[i]);
            assert(out@.map_values(|p: RankedProcess| p.entry()) =~= before.insert(j as int, s[i]));
        }
    }
    assert(s.skip(0) =~= s);
    let ghost full = out@;
    out.truncate(limit);
    assert forall|i: int| 0 <= i < out@.len() implies (#[trigger] out@[i]).entry()
        == rank_by_memory_spec(s)[i] && out@[i].display@ == fmt_bytes_spec(out@[i].bytes) by {
        assert(out@[i] == full[i]);
        assert(full.map_values(|p: RankedProcess| p.entry())[i] == full[i].entry());
    }
    out
}

} // verus!
