//! Byte-level vocabulary of the HTTP/1.1 wire format: line ends, tokens,
//! optional whitespace and decimal numbers.
use vstd::prelude::*;

verus! {

pub const CR: u8 = 13;

pub const LF: u8 = 10;

pub const SP: u8 = 32;

pub const HT: u8 = 9;

pub const COLON: u8 = 58;

/// A printable, non-space ASCII byte.
pub open spec fn is_visible(b: u8) -> bool {
    33 <= b && b <= 126
}

pub open spec fn all_visible(s: Seq<u8>) -> bool {
    forall|i: int| 0 <= i < s.len() ==> is_visible(#[trigger] s[i])
}

/// A non-empty run of visible bytes: what separates on a single space.
pub open spec fn is_token(s: Seq<u8>) -> bool {
    s.len() > 0 && all_visible(s)
}

/// Holds neither a carriage return nor a line feed.
pub open spec fn no_line_break(s: Seq<u8>) -> bool {
    forall|i: int| 0 <= i < s.len() ==> #[trigger] s[i] != CR && s[i] != LF
}

pub open spec fn is_ows(b: u8) -> bool {
    b == SP || b == HT
}

/// The first position at or after `from` that holds `b`.
pub open spec fn find_spec(s: Seq<u8>, b: u8, from: int) -> Option<int>
    decreases s.len() - from,
{
    if from < 0 || from >= s.len() {
        None
    } else if s[from] == b {
        Some(from)
    } else {
        find_spec(s, b, from + 1)
    }
}

pub open spec fn crlf_at(s: Seq<u8>, i: int) -> bool {
    0 <= i && i + 1 < s.len() && s[i] == CR && s[i + 1] == LF
}

/// The position of the first CRLF at or after `from`: the end of the line
/// that starts there.
pub open spec fn line_end(s: Seq<u8>, from: int) -> Option<int>
    decreases s.len() - from,
{
    if from < 0 || from + 1 >= s.len() {
        None
    } else if crlf_at(s, from) {
        Some(from)
    } else {
        line_end(s, from + 1)
    }
}

/// Index of the first byte at or after `i` that is not optional whitespace.
pub open spec fn ows_front(s: Seq<u8>, i: int) -> int
    decreases s.len() - i,
{
    if 0 <= i < s.len() && is_ows(s[i]) {
        ows_front(s, i + 1)
    } else {
        i
    }
}

/// End of `s[lo..j]` once trailing optional whitespace is dropped.
pub open spec fn ows_back(s: Seq<u8>, lo: int, j: int) -> int
    decreases j - lo,
{
    if lo < j && j <= s.len() && is_ows(s[j - 1]) {
        ows_back(s, lo, j - 1)
    } else {
        j
    }
}

/// `s` without leading and trailing spaces and tabs.
pub open spec fn trim_ows(s: Seq<u8>) -> Seq<u8> {
    let lo = ows_front(s, 0);
    s.subrange(lo, ows_back(s, lo, s.len() as int))
}

pub proof fn lemma_find_bounds(s: Seq<u8>, b: u8, from: int)
    ensures
        find_spec(s, b, from).is_some() ==> from <= find_spec(s, b, from).unwrap() < s.len()
            && s[find_spec(s, b, from).unwrap()] == b,
    decreases s.len() - from,
{
    if 0 <= from < s.len() && s[from] != b {
        lemma_find_bounds(s, b, from + 1);
    }
}

/// Where `b` first occurs at `k`, the search from any earlier point finds it.
pub proof fn lemma_find_first(s: Seq<u8>, b: u8, from: int, k: int)
    requires
        0 <= from <= k < s.len(),
        s[k] == b,
        forall|j: int| from <= j < k ==> s[j] != b,
    ensures
        find_spec(s, b, from) == Some(k),
    decreases k - from,
{
    if from < k {
        lemma_find_first(s, b, from + 1, k);
    }
}

pub proof fn lemma_line_end_bounds(s: Seq<u8>, from: int)
    ensures
        line_end(s, from).is_some() ==> from <= line_end(s, from).unwrap() && crlf_at(
            s,
            line_end(s, from).unwrap(),
        ),
    decreases s.len() - from,
{
    if 0 <= from && from + 1 < s.len() && !crlf_at(s, from) {
        lemma_line_end_bounds(s, from + 1);
    }
}

/// A line with no carriage return in it ends at the first CRLF after it.
pub proof fn lemma_line_end_first(s: Seq<u8>, from: int, k: int)
    requires
        0 <= from <= k,
        crlf_at(s, k),
        forall|j: int| from <= j < k ==> s[j] != CR,
    ensures
        line_end(s, from) == Some(k),
    decreases k - from,
{
    if from < k {
        lemma_line_end_first(s, from + 1, k);
    }
}

/// Position of the first `b` in `s` at or after `from`.
pub fn find_byte(s: &[u8], b: u8, from: usize) -> (r: Option<usize>)
    ensures
        match r {
            Some(k) => find_spec(s@, b, from as int) == Some(k as int),
            None => find_spec(s@, b, from as int).is_none(),
        },
{
    let mut i: usize = from;
    while i < s.len()
        invariant
            from <= i,
            find_spec(s@, b, from as int) == find_spec(s@, b, i as int),
        decreases s.len() - i,
    {
        if s[i] == b {
            return Some(i);
        }
        i = i + 1;
    }
    None
}

/// Position of the first CRLF in `s` at or after `from`.
pub fn find_line_end(s: &[u8], from: usize) -> (r: Option<usize>)
    ensures
        match r {
            Some(k) => line_end(s@, from as int) == Some(k as int),
            None => line_end(s@, from as int).is_none(),
        },
{
    let mut i: usize = from;
    while i < s.len() && i + 1 < s.len()
        invariant
            from <= i,
            line_end(s@, from as int) == line_end(s@, i as int),
        decreases s.len() - i,
    {
        if s[i] == CR && s[i + 1] == LF {
            return Some(i);
        }
        i = i + 1;
    }
    None
}

/// A copy of `s[lo..hi]`.
pub fn copy_range(s: &[u8], lo: usize, hi: usize) -> (r: Vec<u8>)
    requires
        lo <= hi <= s.len(),
    ensures
        r@ == s@.subrange(lo as int, hi as int),
{
    let mut r: Vec<u8> = Vec::new();
    let mut i: usize = lo;
    while i < hi
        invariant
            lo <= i <= hi <= s.len(),
            r@ == s@.subrange(lo as int, i as int),
        decreases hi - i,
    {
        r.push(s[i]);
        i = i + 1;
    }
    r
}

pub fn check_token(s: &[u8]) -> (r: bool)
    ensures
        r == is_token(s@),
{
    if s.len() == 0 {
        return false;
    }
    let mut i: usize = 0;
    while i < s.len()
        invariant
            i <= s.len(),
            forall|j: int| 0 <= j < i ==> is_visible(#[trigger] s@[j]),
        decreases s.len() - i,
    {
        if s[i] < 33 || s[i] > 126 {
            return false;
        }
        i = i + 1;
    }
    true
}

pub fn check_no_line_break(s: &[u8]) -> (r: bool)
    ensures
        r == no_line_break(s@),
{
    let mut i: usize = 0;
    while i < s.len()
        invariant
            i <= s.len(),
            forall|j: int| 0 <= j < i ==> #[trigger] s@[j] != CR && s@[j] != LF,
        decreases s.len() - i,
    {
        if s[i] == CR || s[i] == LF {
            return false;
        }
        i = i + 1;
    }
    true
}

/// `s` without leading and trailing spaces and tabs.
pub fn trim(s: &[u8]) -> (r: Vec<u8>)
    ensures
        r@ == trim_ows(s@),
{
    let mut lo: usize = 0;
    while lo < s.len() && (s[lo] == SP || s[lo] == HT)
        invariant
            lo <= s.len(),
            ows_front(s@, 0) == ows_front(s@, lo as int),
        decreases s.len() - lo,
    {
        lo = lo + 1;
    }
    let mut hi: usize = s.len();
    while lo < hi && (s[hi - 1] == SP || s[hi - 1] == HT)
        invariant
            lo <= hi <= s.len(),
            ows_back(s@, lo as int, s.len() as int) == ows_back(s@, lo as int, hi as int),
        decreases hi - lo,
    {
        hi = hi - 1;
    }
    copy_range(s, lo, hi)
}

pub open spec fn is_digit(b: u8) -> bool {
    48 <= b && b <= 57
}

/// The value of a run of decimal digits.
pub open spec fn digits_value(s: Seq<u8>) -> nat
    decreases s.len(),
{
    if s.len() == 0 {
        0
    } else {
        digits_value(s.drop_last()) * 10 + (s.last() - 48) as nat
    }
}

pub open spec fn pow10(k: nat) -> nat
    decreases k,
{
    if k == 0 {
        1
    } else {
        10 * pow10((k - 1) as nat)
    }
}

/// The number that `s` spells in decimal: one to nineteen digits, so that
/// every such number fits in a `u64`.
pub open spec fn decimal_value(s: Seq<u8>) -> Option<nat> {
    if 1 <= s.len() <= 19 && forall|i: int| 0 <= i < s.len() ==> is_digit(#[trigger] s[i]) {
        Some(digits_value(s))
    } else {
        None
    }
}

/// `n` written in decimal, without leading zeros.
pub open spec fn decimal(n: nat) -> Seq<u8>
    decreases n,
{
    if n < 10 {
        seq![(n + 48) as u8]
    } else {
        decimal(n / 10) + seq![((n % 10) + 48) as u8]
    }
}

/// `decimal(n)` is a run of digits that spells `n`.
pub proof fn lemma_decimal_reads_back(n: nat)
    ensures
        decimal(n).len() >= 1,
        forall|i: int| 0 <= i < decimal(n).len() ==> is_digit(#[trigger] decimal(n)[i]),
        digits_value(decimal(n)) == n,
        n < pow10(19) ==> decimal(n).len() <= 19,
    decreases n,
{
    if n < 10 {
        assert(decimal(n).drop_last() =~= Seq::<u8>::empty());
        assert(decimal(n).last() == (n + 48) as u8);
        assert(((n + 48) as u8) as int == n + 48);
        assert(digits_value(decimal(n)) == digits_value(Seq::<u8>::empty()) * 10 + (decimal(n).last() - 48) as nat);
    } else {
        lemma_decimal_reads_back(n / 10);
        let d = decimal(n);
        assert(d.drop_last() =~= decimal(n / 10));
        assert(d.last() == ((n % 10) + 48) as u8);
        assert((n / 10) * 10 + n % 10 == n);
        assert((((n % 10) + 48) as u8) as int == (n % 10) + 48);
        assert(digits_value(d) == digits_value(d.drop_last()) * 10 + (d.last() - 48) as nat);
        assert forall|i: int| 0 <= i < d.len() implies is_digit(#[trigger] d[i]) by {
            if i < d.len() - 1 {
                assert(d[i] == decimal(n / 10)[i]);
            }
        }
        if n < pow10(19) {
            assert(pow10(19) == 10 * pow10(18));
            assert(n / 10 < pow10(18));
            lemma_decimal_short(n / 10, 18);
        }
    }
}

proof fn lemma_decimal_short(n: nat, k: nat)
    requires
        n < pow10(k),
        k >= 1,
    ensures
        decimal(n).len() <= k,
    decreases n,
{
    if n >= 10 {
        assert(k >= 2) by {
            if k == 0 {
                assert(pow10(0) == 1);
            } else if k == 1 {
                assert(pow10(1) == 10 * pow10(0));
            }
        }
        assert(pow10(k) == 10 * pow10((k - 1) as nat));
        lemma_decimal_short(n / 10, (k - 1) as nat);
    }
}

/// Reads one to nineteen decimal digits.
pub fn parse_decimal(s: &[u8]) -> (r: Option<u64>)
    ensures
        match r {
            Some(x) => decimal_value(s@) == Some(x as nat),
            None => decimal_value(s@).is_none(),
        },
{
    if s.len() == 0 || s.len() > 19 {
        return None;
    }
    let mut acc: u64 = 0;
    let mut i: usize = 0;
    while i < s.len()
        invariant
            1 <= s.len() <= 19,
            i <= s.len(),
            forall|j: int| 0 <= j < i ==> is_digit(#[trigger] s@[j]),
            acc == digits_value(s@.subrange(0, i as int)),
            acc < pow10(i as nat),
        decreases s.len() - i,
    {
        if s[i] < 48 || s[i] > 57 {
            return None;
        }
        let ghost prefix = s@.subrange(0, i as int);
        assert(s@.subrange(0, i + 1).drop_last() =~= prefix);
        assert(pow10(i as nat) <= 1000000000000000000) by {
            lemma_pow10_grows(i as nat, 18);
            assert(pow10(18) == 1000000000000000000) by {
                reveal_with_fuel(pow10, 19);
            }
        }
        let ghost p = pow10(i as nat);
        assert(acc * 10 + 9 < 10 * p) by (nonlinear_arith)
            requires
                acc < p,
        ;
        acc = acc * 10 + (s[i] - 48) as u64;
        i = i + 1;
    }
    assert(s@.subrange(0, s.len() as int) =~= s@);
    Some(acc)
}

pub proof fn lemma_pow10_grows(a: nat, b: nat)
    requires
        a <= b,
    ensures
        pow10(a) <= pow10(b),
    decreases b,
{
    if a < b {
        lemma_pow10_grows(a, (b - 1) as nat);
    }
}

/// Appends `n` written in decimal.
pub fn push_decimal(out: &mut Vec<u8>, n: u64)
    ensures
        final(out)@ == old(out)@ + decimal(n as nat),
    decreases n,
{
    if n >= 10 {
        push_decimal(out, n / 10);
    }
    out.push((n % 10) as u8 + 48);
}

} // verus!
