//! Exact decimal numbers and the text forms in which element sets write them.
use vstd::prelude::*;

verus! {

/// A number written in decimal: `mantissa * 10^exponent`, held exactly.
#[derive(Clone, Copy, Debug, PartialEq, Eq, Structural)]
pub struct Decimal {
    pub mantissa: i64,
    pub exponent: i32,
}

pub open spec fn is_digit(c: char) -> bool {
    '0' <= c && c <= '9'
}

pub open spec fn digit_value(c: char) -> nat {
    (c as u32 - '0' as u32) as nat
}

pub open spec fn pow10(n: nat) -> nat
    decreases n,
{
    if n == 0 {
        1
    } else {
        10 * pow10((n - 1) as nat)
    }
}

/// The number that a run of decimal digits spells.
pub open spec fn digits_value(s: Seq<char>) -> nat
    decreases s.len(),
{
    if s.len() == 0 {
        0
    } else {
        digits_value(s.drop_last()) * 10 + digit_value(s.last())
    }
}

pub open spec fn all_digits(s: Seq<char>) -> bool {
    forall|i: int| 0 <= i < s.len() ==> is_digit(#[trigger] s[i])
}

/// One or more digits, nothing else.
pub open spec fn unsigned_of(s: Seq<char>) -> Option<nat> {
    if s.len() > 0 && all_digits(s) {
        Some(digits_value(s))
    } else {
        None
    }
}

pub open spec fn has_sign(s: Seq<char>) -> bool {
    s.len() > 0 && (s[0] == '-' || s[0] == '+')
}

pub open spec fn apply_sign(s: Seq<char>, v: nat) -> int {
    if s.len() > 0 && s[0] == '-' {
        -v
    } else {
        v as int
    }
}

/// An optional sign, then one or more digits.
pub open spec fn signed_of(s: Seq<char>) -> Option<int> {
    let body = if has_sign(s) { s.drop_first() } else { s };
    match unsigned_of(body) {
        Some(v) => Some(apply_sign(s, v)),
        None => None,
    }
}

/// Reads digits with at most one decimal point, left to right: the value of
/// the digits so far, whether the point was seen, how many digits follow it,
/// and how many digits there are in all.
pub open spec fn scan_decimal(s: Seq<char>) -> Option<(nat, bool, nat, nat)>
    decreases s.len(),
{
    if s.len() == 0 {
        Some((0, false, 0, 0))
    } else {
        match scan_decimal(s.drop_last()) {
            None => None,
            Some((v, dot, frac, n)) => {
                let c = s.last();
                if is_digit(c) {
                    Some((v * 10 + digit_value(c), dot, if dot { frac + 1 } else { frac }, n + 1))
                } else if c == '.' && !dot {
                    Some((v, true, frac, n))
                } else {
                    None
                }
            },
        }
    }
}

/// An optional sign, then digits with at most one decimal point, at least one
/// digit in all. The result is `(mantissa, exponent)`.
pub open spec fn decimal_of(s: Seq<char>) -> Option<(int, int)> {
    let body = if has_sign(s) { s.drop_first() } else { s };
    match scan_decimal(body) {
        Some((v, _, frac, n)) => if n > 0 {
            Some((apply_sign(s, v), -frac))
        } else {
            None
        },
        None => None,
    }
}

/// The text without the spaces at either end.
pub open spec fn trimmed(s: Seq<char>) -> Seq<char>
    decreases s.len(),
{
    if s.len() > 0 && s[0] == ' ' {
        trimmed(s.drop_first())
    } else if s.len() > 0 && s.last() == ' ' {
        trimmed(s.drop_last())
    } else {
        s
    }
}

pub proof fn lemma_pow10_bound(n: nat)
    requires
        n <= 18,
    ensures
        pow10(n) <= 1_000_000_000_000_000_000,
    decreases 18 - n,
{
    reveal_with_fuel(pow10, 19);
    if n < 18 {
        lemma_pow10_bound((n + 1) as nat);
        assert(pow10((n + 1) as nat) == 10 * pow10(n));
    }
}

pub proof fn lemma_next_digit(v: nat, n: nat, d: nat)
    requires
        v < pow10(n),
        d < 10,
    ensures
        v * 10 + d < pow10(n + 1),
{
    assert(pow10(n + 1) == 10 * pow10(n));
    assert(v * 10 + d < 10 * pow10(n)) by (nonlinear_arith)
        requires
            v < pow10(n),
            d < 10,
    ;
}

/// Reads the characters `from..to` of `line` as an unsigned integer.
pub fn unsigned_at(line: &str, from: usize, to: usize) -> (r: Option<u64>)
    requires
        from <= to <= line@.len(),
        to - from <= 18,
    ensures
        match r {
            Some(v) => unsigned_of(line@.subrange(from as int, to as int)) == Some(v as nat),
            None => unsigned_of(line@.subrange(from as int, to as int)) is None,
        },
        r matches Some(v) ==> v < pow10((to - from) as nat),
{
    if from == to {
        return None;
    }
    let ghost s = line@.subrange(from as int, to as int);
    let mut v: u64 = 0;
    let mut i: usize = from;
    while i < to
        invariant
            from <= i <= to <= line@.len(),
            to - from <= 18,
            s == line@.subrange(from as int, to as int),
            all_digits(line@.subrange(from as int, i as int)),
            v as nat == digits_value(line@.subrange(from as int, i as int)),
            v < pow10((i - from) as nat),
        decreases to - i,
    {
        let c = line.get_char(i);
        if !('0' <= c && c <= '9') {
            assert(s[i - from] == c);
            return None;
        }
        let ghost prev = line@.subrange(from as int, i as int);
        let ghost next = line@.subrange(from as int, i + 1);
        assert(next.drop_last() =~= prev);
        assert(next.last() == c);
        proof {
            lemma_next_digit(v as nat, (i - from) as nat, digit_value(c));
            lemma_pow10_bound((i + 1 - from) as nat);
        }
        v = v * 10 + (c as u32 - '0' as u32) as u64;
        i = i + 1;
    }
    assert(line@.subrange(from as int, i as int) =~= s);
    Some(v)
}

/// Reads the characters `from..to` of `line` as a signed integer.
pub fn signed_at(line: &str, from: usize, to: usize) -> (r: Option<i64>)
    requires
        from <= to <= line@.len(),
        to - from <= 18,
    ensures
        match r {
            Some(v) => signed_of(line@.subrange(from as int, to as int)) == Some(v as int),
            None => signed_of(line@.subrange(from as int, to as int)) is None,
        },
        r matches Some(v) ==> -pow10((to - from) as nat) < v < pow10((to - from) as nat),
{
    let ghost s = line@.subrange(from as int, to as int);
    let mut start = from;
    let mut negative = false;
    if from < to {
        let c = line.get_char(from);
        if c == '-' || c == '+' {
            start = from + 1;
            negative = c == '-';
        }
    }
    let body = unsigned_at(line, start, to);
    if start > from {
        assert(s.drop_first() =~= line@.subrange(start as int, to as int));
    } else {
        assert(s =~= line@.subrange(start as int, to as int));
    }
    match body {
        Some(v) => {
            proof {
                lemma_pow10_bound((to - start) as nat);
                lemma_pow10_mono((to - start) as nat, (to - from) as nat);
            }
            if negative {
                Some(-(v as i64))
            } else {
                Some(v as i64)
            }
        },
        None => None,
    }
}

/// Reads the characters `from..to` of `line` as a decimal number.
pub fn decimal_at(line: &str, from: usize, to: usize) -> (r: Option<Decimal>)
    requires
        from <= to <= line@.len(),
        to - from <= 18,
    ensures
        match r {
            Some(d) => decimal_of(line@.subrange(from as int, to as int)) == Some(
                (d.mantissa as int, d.exponent as int),
            ),
            None => decimal_of(line@.subrange(from as int, to as int)) is None,
        },
        r matches Some(d) ==> -pow10((to - from) as nat) < d.mantissa < pow10((to - from) as nat)
            && -((to - from) as int) <= d.exponent <= 0,
{
    let ghost s = line@.subrange(from as int, to as int);
    let mut start = from;
    let mut negative = false;
    if from < to {
        let c = line.get_char(from);
        if c == '-' || c == '+' {
            start = from + 1;
            negative = c == '-';
        }
    }
    let ghost body = line@.subrange(start as int, to as int);
    if from < to {
        assert(s[0] == line@[from as int]);
    }
    if start > from {
        assert(s.drop_first() =~= body);
    } else {
        assert(s =~= body);
    }
    let mut v: u64 = 0;
    let mut dot = false;
    let mut frac: u32 = 0;
    let mut n: u32 = 0;
    let mut i: usize = start;
    while i < to
        invariant
            from <= start <= i <= to <= line@.len(),
            to - from <= 18,
            body == line@.subrange(start as int, to as int),
            s == line@.subrange(from as int, to as int),
            has_sign(s) <==> start > from,
            negative <==> (s.len() > 0 && s[0] == '-'),
            body == (if has_sign(s) { s.drop_first() } else { s }),
            scan_decimal(line@.subrange(start as int, i as int)) == Some(
                (v as nat, dot, frac as nat, n as nat),
            ),
            frac <= n <= i - start,
            v < pow10(n as nat),
        decreases to - i,
    {
        let c = line.get_char(i);
        let ghost prev = line@.subrange(start as int, i as int);
        let ghost next = line@.subrange(start as int, i + 1);
        assert(next.drop_last() =~= prev);
        assert(next.last() == c);
        if '0' <= c && c <= '9' {
            proof {
                lemma_next_digit(v as nat, n as nat, digit_value(c));
                lemma_pow10_bound((n + 1) as nat);
            }
            v = v * 10 + (c as u32 - '0' as u32) as u64;
            n = n + 1;
            if dot {
                frac = frac + 1;
            }
        } else if c == '.' && !dot {
            dot = true;
        } else {
            assert(body.subrange(0, i - start + 1) =~= next);
            proof {
                lemma_scan_fails(body, i - start);
            }
            return None;
        }
        i = i + 1;
    }
    assert(line@.subrange(start as int, i as int) =~= body);
    if n == 0 {
        return None;
    }
    proof {
        lemma_pow10_bound(n as nat);
        lemma_pow10_mono(n as nat, (to - from) as nat);
    }
    let m: i64 = if negative {
        -(v as i64)
    } else {
        v as i64
    };
    Some(Decimal { mantissa: m, exponent: -(frac as i32) })
}

pub proof fn lemma_pow10_mono(a: nat, b: nat)
    requires
        a <= b,
    ensures
        pow10(a) <= pow10(b),
    decreases b - a,
{
    if a < b {
        lemma_pow10_mono(a, (b - 1) as nat);
        assert(pow10(b) == 10 * pow10((b - 1) as nat));
    }
}

/// Once a prefix fails to scan, so does every longer text.
pub proof fn lemma_scan_fails(s: Seq<char>, k: int)
    requires
        0 <= k < s.len(),
        scan_decimal(s.subrange(0, k + 1)) is None,
    ensures
        scan_decimal(s) is None,
    decreases s.len() - k,
{
    if k + 1 < s.len() {
        let t = s.subrange(0, k + 2);
        assert(t.drop_last() =~= s.subrange(0, k + 1));
        lemma_scan_fails(s, k + 1);
    } else {
        assert(s.subrange(0, k + 1) =~= s);
    }
}

/// Finds the characters of `from..to` that are left once the spaces at either
/// end are taken off.
pub fn trim_at(line: &str, from: usize, to: usize) -> (r: (usize, usize))
    requires
        from <= to <= line@.len(),
    ensures
        from <= r.0 <= r.1 <= to,
        line@.subrange(r.0 as int, r.1 as int) == trimmed(line@.subrange(from as int, to as int)),
{
    let ghost goal = trimmed(line@.subrange(from as int, to as int));
    let mut lo = from;
    while lo < to && line.get_char(lo) == ' '
        invariant
            from <= lo <= to <= line@.len(),
            trimmed(line@.subrange(lo as int, to as int)) == goal,
        decreases to - lo,
    {
        assert(line@.subrange(lo as int, to as int).drop_first() =~= line@.subrange(lo + 1, to as int));
        lo = lo + 1;
    }
    let mut hi = to;
    while hi > lo && line.get_char(hi - 1) == ' '
        invariant
            from <= lo <= hi <= to <= line@.len(),
            lo < hi ==> line@[lo as int] != ' ',
            trimmed(line@.subrange(lo as int, hi as int)) == goal,
        decreases hi - lo,
    {
        assert(line@.subrange(lo as int, hi as int).drop_last() =~= line@.subrange(lo as int, hi - 1));
        hi = hi - 1;
    }
    (lo, hi)
}

} // verus!
