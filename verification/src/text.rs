//! Byte-level text helpers shared by the parsers: ASCII digits, decimal
//! values, substring search and integer parsing with the rules of the
//! standard library's `from_str` for integers.

use vstd::prelude::*;

verus! {

/// An ASCII decimal digit.
pub open spec fn is_digit_byte(b: u8) -> bool {
    0x30 <= b <= 0x39
}

/// Every byte is an ASCII decimal digit.
pub open spec fn all_digits(s: Seq<u8>) -> bool {
    forall|i: int| 0 <= i < s.len() ==> is_digit_byte(#[trigger] s[i])
}

/// The value of a sequence of decimal digits, most significant first.
pub open spec fn digits_value(s: Seq<u8>) -> nat
    decreases s.len(),
{
    if s.len() == 0 {
        0
    } else {
        10 * digits_value(s.drop_last()) + (s.last() - 0x30) as nat
    }
}

/// What `i64::from_str` gives for the text with these bytes: an optional
/// sign, then one or more ASCII digits, in range.
pub open spec fn parse_i64_spec(s: Seq<u8>) -> Option<i64> {
    if s.len() == 0 {
        None
    } else {
        let neg = s[0] == 0x2D;
        let body = if s[0] == 0x2D || s[0] == 0x2B {
            s.drop_first()
        } else {
            s
        };
        if body.len() == 0 || !all_digits(body) {
            None
        } else {
            let v: int = if neg {
                -(digits_value(body) as int)
            } else {
                digits_value(body) as int
            };
            if i64::MIN <= v <= i64::MAX {
                Some(v as i64)
            } else {
                None
            }
        }
    }
}

/// What `u16::from_str` gives for the text with these bytes: an optional
/// `+`, then one or more ASCII digits, in range.
pub open spec fn parse_u16_spec(s: Seq<u8>) -> Option<u16> {
    let body = if s.len() > 0 && s[0] == 0x2B {
        s.drop_first()
    } else {
        s
    };
    if body.len() == 0 || !all_digits(body) || digits_value(body) > u16::MAX {
        None
    } else {
        Some(digits_value(body) as u16)
    }
}

/// `n` occurs in `h` at byte offset `i`.
pub open spec fn occurs_at(h: Seq<u8>, n: Seq<u8>, i: int) -> bool {
    0 <= i && i + n.len() <= h.len() && h.subrange(i, i + n.len()) == n
}

/// The offset of the first occurrence of `n` in `h`, as `str::find` reports it.
#[verifier::opaque]
pub open spec fn first_occurrence(h: Seq<u8>, n: Seq<u8>) -> Option<int> {
    if exists|i: int| occurs_at(h, n, i) {
        Some(
            choose|i: int|
                occurs_at(h, n, i) && forall|j: int| 0 <= j < i ==> !occurs_at(h, n, j),
        )
    } else {
        None
    }
}

/// The character of a decimal digit.
pub open spec fn digit_char(d: nat) -> char {
    (d + 48) as char
}

/// The decimal representation of `n`, without leading zeros.
pub open spec fn decimal_chars(n: nat) -> Seq<char>
    decreases n,
{
    if n < 10 {
        seq![digit_char(n)]
    } else {
        decimal_chars(n / 10).push(digit_char(n % 10))
    }
}

/// The one-character text of a decimal digit.
fn digit_str(d: u128) -> (s: &'static str)
    requires
        d < 10,
    ensures
        s@ == seq![digit_char(d as nat)],
{
    match d {
        0 => {
            proof {
                reveal_strlit("0");
            }
            "0"
        },
        1 => {
            proof {
                reveal_strlit("1");
            }
            "1"
        },
        2 => {
            proof {
                reveal_strlit("2");
            }
            "2"
        },
        3 => {
            proof {
                reveal_strlit("3");
            }
            "3"
        },
        4 => {
            proof {
                reveal_strlit("4");
            }
            "4"
        },
        5 => {
            proof {
                reveal_strlit("5");
            }
            "5"
        },
        6 => {
            proof {
                reveal_strlit("6");
            }
            "6"
        },
        7 => {
            proof {
                reveal_strlit("7");
            }
            "7"
        },
        8 => {
            proof {
                reveal_strlit("8");
            }
            "8"
        },
        _ => {
            proof {
                reveal_strlit("9");
            }
            "9"
        },
    }
}

/// Appends the decimal representation of `n` to `out`.
pub fn push_decimal(out: &mut String, n: u128)
    ensures
        final(out)@ == old(out)@ + decimal_chars(n as nat),
    decreases n,
{
    if n >= 10 {
        push_decimal(out, n / 10);
    }
    out.append(digit_str(n % 10));
    assert(out@ =~= old(out)@ + decimal_chars(n as nat));
}

/// Compares two byte slices.
pub fn bytes_eq(a: &[u8], b: &[u8]) -> (r: bool)
    ensures
        r == (a@ == b@),
{
    if a.len() != b.len() {
        return false;
    }
    let mut i: usize = 0;
    while i < a.len()
        invariant
            a@.len() == b@.len(),
            i <= a@.len(),
            forall|k: int| 0 <= k < i ==> a@[k] == b@[k],
        decreases a.len() - i,
    {
        if a[i] != b[i] {
            return false;
        }
        i = i + 1;
    }
    assert(a@ =~= b@);
    true
}

/// Compares two strings.
pub fn str_eq(a: &str, b: &str) -> (r: bool)
    ensures
        r == (a@ == b@),
{
    let r = bytes_eq(a.as_bytes(), b.as_bytes());
    proof {
        vstd::utf8::encode_utf8_decode_utf8(a@);
        vstd::utf8::encode_utf8_decode_utf8(b@);
    }
    r
}

/// A character with the Unicode `White_Space` property, which
/// `char::is_whitespace` and `str::trim` go by.
pub open spec fn is_unicode_whitespace(c: char) -> bool {
    let u: u32 = c as u32;
    (0x9 <= u <= 0xD) || u == 0x20 || u == 0x85 || u == 0xA0 || u == 0x1680 || (0x2000 <= u
        <= 0x200A) || u == 0x2028 || u == 0x2029 || u == 0x202F || u == 0x205F || u == 0x3000
}

/// `s` without its leading whitespace.
pub open spec fn trim_start_spec(s: Seq<char>) -> Seq<char>
    decreases s.len(),
{
    if s.len() > 0 && is_unicode_whitespace(s[0]) {
        trim_start_spec(s.drop_first())
    } else {
        s
    }
}

/// `s` without its trailing whitespace.
pub open spec fn trim_end_spec(s: Seq<char>) -> Seq<char>
    decreases s.len(),
{
    if s.len() > 0 && is_unicode_whitespace(s.last()) {
        trim_end_spec(s.drop_last())
    } else {
        s
    }
}

/// `s` without leading and trailing whitespace, as `str::trim` gives it.
pub open spec fn trim_spec(s: Seq<char>) -> Seq<char> {
    trim_end_spec(trim_start_spec(s))
}

/// Whether `c` is Unicode whitespace.
pub fn is_whitespace_char(c: char) -> (r: bool)
    ensures
        r == is_unicode_whitespace(c),
{
    let u: u32 = c as u32;
    (0x9 <= u && u <= 0xD) || u == 0x20 || u == 0x85 || u == 0xA0 || u == 0x1680 || (0x2000 <= u
        && u <= 0x200A) || u == 0x2028 || u == 0x2029 || u == 0x202F || u == 0x205F || u == 0x3000
}

/// `s` without leading and trailing whitespace.
pub fn trim_str(s: &str) -> (t: &str)
    ensures
        t@ == trim_spec(s@),
{
    let n: usize = s.unicode_len();
    let mut a: usize = 0;
    assert(s@.subrange(0, n as int) =~= s@);
    while a < n && is_whitespace_char(s.get_char(a))
        invariant
            n == s@.len(),
            a <= n,
            trim_start_spec(s@) == trim_start_spec(s@.subrange(a as int, n as int)),
        decreases n - a,
    {
        assert(s@.subrange(a as int, n as int).drop_first() =~= s@.subrange(a + 1, n as int));
        a = a + 1;
    }
    assert(trim_start_spec(s@) == s@.subrange(a as int, n as int));
    let mut b: usize = n;
    while b > a && is_whitespace_char(s.get_char(b - 1))
        invariant
            n == s@.len(),
            a <= b <= n,
            trim_spec(s@) == trim_end_spec(s@.subrange(a as int, b as int)),
        decreases b - a,
    {
        assert(s@.subrange(a as int, b as int).drop_last() =~= s@.subrange(a as int, b - 1));
        b = b - 1;
    }
    assert(trim_spec(s@) == s@.subrange(a as int, b as int));
    s.substring_char(a, b)
}

/// Parses the text with bytes `s` as `u16::from_str` does.
pub fn parse_u16(s: &[u8]) -> (r: Option<u16>)
    ensures
        r == parse_u16_spec(s@),
{
    let mut i: usize = 0;
    if s.len() > 0 && s[0] == 0x2B {
        i = 1;
    }
    let ghost body = s@.subrange(i as int, s@.len() as int);
    assert(body =~= (if s@.len() > 0 && s@[0] == 0x2B {
        s@.drop_first()
    } else {
        s@
    }));
    if i == s.len() {
        return None;
    }
    let first: usize = i;
    let mut acc: u32 = 0;
    while i < s.len()
        invariant
            first <= i <= s@.len(),
            first < s@.len(),
            body == s@.subrange(first as int, s@.len() as int),
            body == (if s@.len() > 0 && s@[0] == 0x2B {
                s@.drop_first()
            } else {
                s@
            }),
            all_digits(s@.subrange(first as int, i as int)),
            acc == digits_value(s@.subrange(first as int, i as int)),
            acc <= u16::MAX,
        decreases s@.len() - i,
    {
        let b: u8 = s[i];
        if b < 0x30 || b > 0x39 {
            assert(body[i - first] == b);
            return None;
        }
        let ghost pre = s@.subrange(first as int, i as int);
        assert(s@.subrange(first as int, i + 1) =~= pre.push(b));
        proof {
            lemma_digits_value_push(pre, b);
        }
        let next: u32 = acc * 10 + (b - 0x30) as u32;
        if next > 0xFFFF {
            assert(body.subrange(0, i + 1 - first) =~= pre.push(b));
            proof {
                if all_digits(body) {
                    lemma_digits_value_prefix_bound(body, i + 1 - first);
                }
            }
            return None;
        }
        acc = next;
        i = i + 1;
    }
    assert(s@.subrange(first as int, s@.len() as int) =~= body);
    Some(acc as u16)
}

/// The value of a run of digits is at least the value of any of its prefixes.
proof fn lemma_digits_value_prefix_bound(s: Seq<u8>, k: int)
    requires
        0 <= k <= s.len(),
        all_digits(s),
    ensures
        digits_value(s.subrange(0, k)) <= digits_value(s),
    decreases s.len(),
{
    if k < s.len() {
        assert(s.drop_last() =~= s.subrange(0, s.len() - 1));
        assert(s.subrange(0, k) =~= s.drop_last().subrange(0, k));
        lemma_digits_value_prefix_bound(s.drop_last(), k);
    } else {
        assert(s.subrange(0, k) =~= s);
    }
}

/// The decimal digits of `n` as ASCII bytes, without leading zeros.
pub open spec fn decimal_digits(n: nat) -> Seq<u8>
    decreases n,
{
    if n < 10 {
        seq![(n + 48) as u8]
    } else {
        decimal_digits(n / 10).push((n % 10 + 48) as u8)
    }
}

/// The decimal text of `v` as ASCII bytes, with a `-` before negative values.
pub open spec fn signed_decimal(v: i64) -> Seq<u8> {
    if v < 0 {
        seq![0x2Du8] + decimal_digits((-v) as nat)
    } else {
        decimal_digits(v as nat)
    }
}

/// Decimal digits read back as the number they were written from.
pub proof fn lemma_decimal_digits_value(n: nat)
    ensures
        all_digits(decimal_digits(n)),
        digits_value(decimal_digits(n)) == n,
        decimal_digits(n).len() >= 1,
    decreases n,
{
    if n < 10 {
        assert(seq![(n + 48) as u8].drop_last() =~= Seq::<u8>::empty());
        assert(digits_value(Seq::<u8>::empty()) == 0);
        assert(((n + 48) as u8) as int == n + 48);
    } else {
        lemma_decimal_digits_value(n / 10);
        let d = decimal_digits(n / 10);
        assert(decimal_digits(n).drop_last() =~= d);
        assert(decimal_digits(n).last() == (n % 10 + 48) as u8);
        assert(((n % 10 + 48) as u8) as int == n % 10 + 48);
        assert(n == 10 * (n / 10) + n % 10);
        assert(digits_value(decimal_digits(n)) == 10 * digits_value(d) + (n % 10) as nat);
        assert forall|i: int| 0 <= i < decimal_digits(n).len() implies is_digit_byte(
            #[trigger] decimal_digits(n)[i],
        ) by {
            if i < d.len() {
                assert(decimal_digits(n)[i] == d[i]);
            }
        }
    }
}

/// `i64::from_str` reads back the decimal text of any `i64`.
pub proof fn lemma_parse_signed_decimal(v: i64)
    ensures
        parse_i64_spec(signed_decimal(v)) == Some(v),
{
    let s = signed_decimal(v);
    if v < 0 {
        lemma_decimal_digits_value((-v) as nat);
        assert(s.drop_first() =~= decimal_digits((-v) as nat));
    } else {
        lemma_decimal_digits_value(v as nat);
        assert(s[0] != 0x2D && s[0] != 0x2B) by {
            assert(is_digit_byte(decimal_digits(v as nat)[0]));
        }
    }
}

proof fn lemma_digits_value_push(s: Seq<u8>, b: u8)
    ensures
        digits_value(s.push(b)) == 10 * digits_value(s) + (b - 0x30) as nat,
{
    assert(s.push(b).drop_last() =~= s);
}

/// Finds the first occurrence of `n` in `h`.
pub fn find_bytes(h: &[u8], n: &[u8]) -> (r: Option<usize>)
    ensures
        match r {
            Some(i) => first_occurrence(h@, n@) == Some(i as int) && occurs_at(h@, n@, i as int),
            None => first_occurrence(h@, n@) is None,
        },
{
    reveal(first_occurrence);
    if n.len() > h.len() {
        assert forall|j: int| !occurs_at(h@, n@, j) by {}
        return None;
    }
    if n.len() == 0 {
        assert(occurs_at(h@, n@, 0)) by {
            assert(h@.subrange(0, 0) =~= n@);
        }
        let ghost c = choose|c: int|
            occurs_at(h@, n@, c) && forall|j: int| 0 <= j < c ==> !occurs_at(h@, n@, j);
        assert(c == 0);
        return Some(0);
    }
    let hl: usize = h.len();
    let last: usize = hl - n.len();
    let mut i: usize = 0;
    while i <= last
        invariant
            last == h@.len() - n@.len(),
            0 < n@.len() <= h@.len(),
            hl == h@.len(),
            forall|j: int| 0 <= j < i ==> !occurs_at(h@, n@, j),
        decreases last + 1 - i,
    {
        let mut k: usize = 0;
        let mut same = true;
        while k < n.len()
            invariant
                i <= last,
                last == h@.len() - n@.len(),
                0 < n@.len() <= h@.len(),
                hl == h@.len(),
                k <= n@.len(),
                same == forall|m: int| 0 <= m < k ==> h@[i + m] == n@[m],
            decreases n.len() - k,
        {
            assert(i + k < h@.len());
            if h[i + k] != n[k] {
                same = false;
            }
            k = k + 1;
        }
        if same {
            assert(h@.subrange(i as int, i + n@.len()) =~= n@);
            assert(occurs_at(h@, n@, i as int));
            let ghost c = choose|c: int|
                occurs_at(h@, n@, c) && forall|j: int| 0 <= j < c ==> !occurs_at(h@, n@, j);
            assert(occurs_at(h@, n@, c));
            assert(c == i) by {
                if c < i {
                } else if c > i {
                }
            }
            proof {
                reveal(first_occurrence);
            }
            return Some(i);
        }
        assert(!occurs_at(h@, n@, i as int)) by {
            let m = choose|m: int| 0 <= m < n@.len() && h@[i + m] != n@[m];
            if occurs_at(h@, n@, i as int) {
                assert(h@.subrange(i as int, i + n@.len())[m] == h@[i + m]);
            }
        }
        i = i + 1;
    }
    assert forall|j: int| !occurs_at(h@, n@, j) by {
        if 0 <= j && j + n@.len() <= h@.len() {
            assert(j < i);
        }
    }
    proof {
        reveal(first_occurrence);
    }
    None
}

/// Parses `s[start..end]` as `i64::from_str` does.
pub fn parse_i64(s: &[u8], start: usize, end: usize) -> (r: Option<i64>)
    requires
        start <= end <= s@.len(),
    ensures
        r == parse_i64_spec(s@.subrange(start as int, end as int)),
{
    let ghost t = s@.subrange(start as int, end as int);
    if start == end {
        return None;
    }
    assert(t[0] == s@[start as int]);
    let neg = s[start] == 0x2D;
    let mut i: usize = start;
    if s[start] == 0x2D || s[start] == 0x2B {
        i = start + 1;
    }
    let ghost body = s@.subrange(i as int, end as int);
    assert(body =~= (if t[0] == 0x2D || t[0] == 0x2B {
        t.drop_first()
    } else {
        t
    }));
    if i == end {
        return None;
    }
    let first: usize = i;
    // magnitude, saturated just above 2^63
    let mut acc: u128 = 0;
    let mut big = false;
    while i < end
        invariant
            first <= i <= end <= s@.len(),
            first < end,
            t == s@.subrange(start as int, end as int),
            t.len() > 0,
            neg == (t[0] == 0x2D),
            body == (if t[0] == 0x2D || t[0] == 0x2B {
                t.drop_first()
            } else {
                t
            }),
            body == s@.subrange(first as int, end as int),
            all_digits(s@.subrange(first as int, i as int)),
            !big ==> acc == digits_value(s@.subrange(first as int, i as int)),
            !big ==> acc <= 0x8000_0000_0000_0000,
            big ==> digits_value(s@.subrange(first as int, i as int)) > 0x8000_0000_0000_0000,
        decreases end - i,
    {
        let b: u8 = s[i];
        if b < 0x30 || b > 0x39 {
            assert(body[i - first] == b);
            assert(!all_digits(body));
            return None;
        }
        let ghost pre = s@.subrange(first as int, i as int);
        assert(s@.subrange(first as int, i + 1) =~= pre.push(b));
        proof {
            lemma_digits_value_push(pre, b);
        }
        if !big {
            let next: u128 = acc * 10 + (b - 0x30) as u128;
            if next > 0x8000_0000_0000_0000 {
                big = true;
            } else {
                acc = next;
            }
        } else {
            assert(digits_value(pre.push(b)) >= digits_value(pre)) by (nonlinear_arith)
                requires
                    digits_value(pre.push(b)) == 10 * digits_value(pre) + (b - 0x30) as nat,
            ;
        }
        i = i + 1;
    }
    assert(s@.subrange(first as int, end as int) =~= body);
    if big {
        return None;
    }
    if neg {
        let m: i128 = acc as i128;
        Some((0 - m) as i64)
    } else {
        if acc > 0x7FFF_FFFF_FFFF_FFFF {
            None
        } else {
            Some(acc as i64)
        }
    }
}

} // verus!
