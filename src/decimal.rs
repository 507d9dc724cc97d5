use vstd::prelude::*;
use crate::model::MAX_LOG_MAGNITUDE;

verus! {

pub open spec fn is_digit(c: char) -> bool {
    '0' <= c && c <= '9'
}

pub open spec fn all_digits(s: Seq<char>) -> bool {
    forall|i: int| 0 <= i < s.len() ==> is_digit(#[trigger] s[i])
}

/// The value of a string of decimal digits.
pub open spec fn digits_value(s: Seq<char>) -> int
    decreases s.len(),
{
    if s.len() == 0 {
        0
    } else {
        digits_value(s.drop_last()) * 10 + (s.last() as int - '0' as int)
    }
}

/// The first six digits of a fraction, padded with zeros.
pub open spec fn six_digits(f: Seq<char>) -> Seq<char> {
    if f.len() >= 6 {
        f.take(6)
    } else {
        f + Seq::new((6 - f.len()) as nat, |i: int| '0')
    }
}

/// Position of the first `c` in `s`, or its length.
pub open spec fn first_pos(s: Seq<char>, c: char) -> int
    decreases s.len(),
{
    if s.len() == 0 {
        0
    } else if s[0] == c {
        0
    } else {
        1 + first_pos(s.drop_first(), c)
    }
}

/// The value in millionths of an unsigned decimal `d+` or `d+.d*`
/// (fraction digits past the sixth are dropped).
pub open spec fn unsigned_millionths(s: Seq<char>) -> Option<int> {
    let p = first_pos(s, '.');
    let ip = s.take(p);
    let fp = if p < s.len() {
        s.skip(p + 1)
    } else {
        Seq::empty()
    };
    if ip.len() > 0 && all_digits(ip) && all_digits(fp) {
        Some(digits_value(ip) * 1_000_000 + digits_value(six_digits(fp)))
    } else {
        None
    }
}

/// The value in millionths of a decimal with an optional leading `-`, when
/// it is well formed and its magnitude is at most `MAX_LOG_MAGNITUDE`.
pub open spec fn log10_millionths(s: Seq<char>) -> Option<int> {
    let neg = s.len() > 0 && s[0] == '-';
    let body = if neg {
        s.drop_first()
    } else {
        s
    };
    match unsigned_millionths(body) {
        Some(v) => if v <= MAX_LOG_MAGNITUDE {
            Some(
                if neg {
                    -v
                } else {
                    v
                },
            )
        } else {
            None
        },
        None => None,
    }
}

proof fn lemma_digits_prefix(s: Seq<char>, i: int)
    requires
        all_digits(s),
        0 <= i <= s.len(),
    ensures
        digits_value(s) >= digits_value(s.take(i)) >= 0,
    decreases s.len(),
{
    if s.len() == 0 {
        assert(s.take(i) =~= s);
    } else if i == s.len() {
        assert(s.take(i) =~= s);
        lemma_digits_prefix(s.drop_last(), 0);
        assert(is_digit(s[s.len() - 1]));
    } else {
        lemma_digits_prefix(s.drop_last(), i);
        assert(s.drop_last().take(i) =~= s.take(i));
        assert(is_digit(s[s.len() - 1]));
    }
}

pub open spec fn pow10(n: nat) -> int
    decreases n,
{
    if n == 0 {
        1
    } else {
        10 * pow10((n - 1) as nat)
    }
}

proof fn lemma_digits_bound(s: Seq<char>)
    requires
        all_digits(s),
    ensures
        0 <= digits_value(s) < pow10(s.len()),
    decreases s.len(),
{
    if s.len() > 0 {
        lemma_digits_bound(s.drop_last());
        assert(is_digit(s[s.len() - 1]));
    }
}

proof fn lemma_first_pos(s: Seq<char>, c: char)
    ensures
        0 <= first_pos(s, c) <= s.len(),
        forall|j: int| 0 <= j < first_pos(s, c) ==> s[j] != c,
        first_pos(s, c) < s.len() ==> s[first_pos(s, c)] == c,
    decreases s.len(),
{
    if s.len() > 0 && s[0] != c {
        lemma_first_pos(s.drop_first(), c);
        assert forall|j: int| 0 <= j < first_pos(s, c) implies s[j] != c by {
            if j > 0 {
                assert(s[j] == s.drop_first()[j - 1]);
            }
        }
    }
}

/// Reads digits `s[from..to]`, which must all be digits, giving up once
/// the value passes `cap`.
pub(crate) fn read_digits(s: &Vec<char>, from: usize, to: usize, cap: i64) -> (r: Option<i64>)
    requires
        from <= to <= s@.len(),
        9 <= cap <= 1_000_000_000_000,
    ensures
        r matches Some(v) ==> all_digits(s@.subrange(from as int, to as int)) && v == digits_value(
            s@.subrange(from as int, to as int),
        ) && 0 <= v <= cap,
        r is None ==> !all_digits(s@.subrange(from as int, to as int)) || digits_value(
            s@.subrange(from as int, to as int),
        ) > cap,
{
    let ghost t = s@.subrange(from as int, to as int);
    let mut acc: i64 = 0;
    let mut i: usize = from;
    while i < to
        invariant
            from <= i <= to <= s@.len(),
            t == s@.subrange(from as int, to as int),
            9 <= cap <= 1_000_000_000_000,
            all_digits(s@.subrange(from as int, i as int)),
            acc == digits_value(s@.subrange(from as int, i as int)),
            0 <= acc <= cap,
        decreases to - i,
    {
        let c = s[i];
        let ghost pre = s@.subrange(from as int, i as int);
        let ghost next = s@.subrange(from as int, i + 1);
        assert(next.drop_last() =~= pre);
        if c < '0' || c > '9' {
            assert(t[i - from] == c);
            return None;
        }
        let d = (c as u32 - '0' as u32) as i64;
        assert(digits_value(next) == acc * 10 + d);
        if acc > (cap - d) / 10 {
            proof {
                assert(acc * 10 + d > cap) by (nonlinear_arith)
                    requires
                        acc > (cap - d) / 10,
                        cap - d >= 0,
                        d >= 0,
                ;
                assert(digits_value(next) > cap);
                if all_digits(t) {
                    assert(next =~= t.take(i + 1 - from));
                    lemma_digits_prefix(t, i + 1 - from);
                }
            }
            return None;
        }
        assert(acc * 10 + d <= cap) by (nonlinear_arith)
            requires
                acc <= (cap - d) / 10,
                cap - d >= 0,
                acc >= 0,
        ;
        assert(all_digits(next)) by {
            assert forall|t: int| 0 <= t < next.len() implies is_digit(#[trigger] next[t]) by {
                if t < pre.len() {
                    assert(next[t] == pre[t]);
                }
            }
        }
        acc = acc * 10 + d;
        i = i + 1;
    }
    Some(acc)
}

/// Position of the first `c` in `s` at or after `start`, or the length.
pub(crate) fn find_char(s: &Vec<char>, start: usize, c: char) -> (p: usize)
    requires
        start <= s@.len(),
    ensures
        start <= p <= s@.len(),
        p - start == first_pos(s@.skip(start as int), c),
{
    let ghost body = s@.skip(start as int);
    let mut p: usize = start;
    while p < s.len() && s[p] != c
        invariant
            start <= p <= s@.len(),
            forall|j: int| start <= j < p ==> s@[j] != c,
        decreases s@.len() - p,
    {
        p = p + 1;
    }
    proof {
        lemma_first_pos(body, c);
        let q = first_pos(body, c);
        if q < p - start {
            assert(s@[start + q] == body[q]);
        }
        if p - start < q {
            assert(s@[p as int] == body[p - start]);
        }
    }
    p
}

/// Reads the fraction digits `s[from..]` as millionths, dropping digits
/// past the sixth; `None` where one of them is no digit.
fn read_fraction(s: &Vec<char>, from: usize) -> (r: Option<i64>)
    requires
        from <= s@.len(),
    ensures
        r matches Some(v) ==> all_digits(s@.skip(from as int)) && v == digits_value(
            six_digits(s@.skip(from as int)),
        ) && 0 <= v <= 999_999,
        r is None ==> !all_digits(s@.skip(from as int)),
{
    let ghost fp = s@.skip(from as int);
    let mut frac: Vec<char> = Vec::new();
    let mut i: usize = from;
    while i < s.len() && frac.len() < 6
        invariant
            from <= i <= s@.len(),
            frac@ == s@.subrange(from as int, i as int),
            frac@.len() == i - from,
            frac@.len() <= 6,
        decreases s@.len() - i,
    {
        frac.push(s[i]);
        assert(frac@ =~= s@.subrange(from as int, i + 1));
        i = i + 1;
    }
    let ghost shown = frac@;
    assert(shown =~= if fp.len() >= 6 { fp.take(6) } else { fp });
    while frac.len() < 6
        invariant
            frac@.len() <= 6,
            frac@.subrange(0, shown.len() as int) == shown,
            forall|j: int| shown.len() <= j < frac@.len() ==> frac@[j] == '0',
            shown.len() <= frac@.len(),
        decreases 6 - frac@.len(),
    {
        frac.push('0');
        assert(frac@.subrange(0, shown.len() as int) =~= shown);
    }
    assert(frac@ =~= six_digits(fp));
    assert(frac@.subrange(0, 6) =~= frac@);
    let v = match read_digits(&frac, 0, 6, 999_999) {
        Some(v) => v,
        None => {
            proof {
                if all_digits(fp) {
                    assert forall|t: int| 0 <= t < 6 implies is_digit(#[trigger] frac@[t]) by {
                        if t < shown.len() {
                            assert(frac@[t] == shown[t]);
                        }
                    }
                    lemma_digits_bound(frac@);
                    assert(pow10(0) == 1);
                    assert(pow10(1) == 10);
                    assert(pow10(2) == 100);
                    assert(pow10(3) == 1000);
                    assert(pow10(4) == 10000);
                    assert(pow10(5) == 100000);
                    assert(pow10(6) == 1000000);
                }
            }
            return None;
        },
    };
    let mut j: usize = i;
    while j < s.len()
        invariant
            from <= i <= j <= s@.len(),
            fp == s@.skip(from as int),
            forall|t: int| i <= t < j ==> is_digit(s@[t]),
        decreases s@.len() - j,
    {
        if s[j] < '0' || s[j] > '9' {
            assert(fp[j - from] == s@[j as int]);
            return None;
        }
        j = j + 1;
    }
    proof {
        assert forall|t: int| 0 <= t < fp.len() implies is_digit(#[trigger] fp[t]) by {
            if t < shown.len() {
                assert(fp[t] == shown[t]);
                assert(shown[t] == frac@[t]);
            } else {
                assert(fp[t] == s@[from + t]);
            }
        }
    }
    Some(v)
}

/// Reads a decimal log-probability such as `-0.30103` as millionths
/// (`-301030`); fraction digits past the sixth are dropped. `None` for a
/// malformed number or one beyond `MAX_LOG_MAGNITUDE`.
pub fn parse_log10(s: &Vec<char>) -> (r: Option<i64>)
    ensures
        r matches Some(v) ==> log10_millionths(s@) == Some(v as int),
        r is None ==> log10_millionths(s@) is None,
{
    let neg = s.len() > 0 && s[0] == '-';
    let start: usize = if neg {
        1
    } else {
        0
    };
    let ghost body = s@.skip(start as int);
    assert(body =~= if neg {
        s@.drop_first()
    } else {
        s@
    });
    let p = find_char(s, start, '.');
    let ghost q = first_pos(body, '.');
    assert(body.take(q) =~= s@.subrange(start as int, p as int));
    if p == start {
        return None;
    }
    let ip = match read_digits(s, start, p, 1_000_000) {
        Some(v) => v,
        None => {
            proof {
                let fp = if q < body.len() { body.skip(q + 1) } else { Seq::<char>::empty() };
                if all_digits(body.take(q)) && all_digits(fp) {
                    lemma_digits_prefix(six_digits(fp), 0);
                }
            }
            return None;
        },
    };
    let from: usize = if p < s.len() {
        p + 1
    } else {
        p
    };
    assert(s@.skip(from as int) =~= if q < body.len() { body.skip(q + 1) } else { Seq::<char>::empty() });
    let fv = match read_fraction(s, from) {
        Some(v) => v,
        None => {
            return None;
        },
    };
    let v: i64 = ip * 1_000_000 + fv;
    if v > MAX_LOG_MAGNITUDE {
        return None;
    }
    if neg {
        Some(-v)
    } else {
        Some(v)
    }
}

} // verus!
