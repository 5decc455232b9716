//! Fixed-point reading of the decimal prices and sizes that the spot venue
//! quotes as text.
use vstd::prelude::*;

use crate::strat::{SpotQuote, QTY_SCALE};

verus! {

/// Decimal digits that a fixed-point value carries.
pub const FRACTION_DIGITS: usize = 8;

pub open spec fn is_digit(c: char) -> bool {
    '0' <= c && c <= '9'
}

pub open spec fn digit_of(c: char) -> int {
    (c as int) - ('0' as int)
}

pub open spec fn all_digits(s: Seq<char>) -> bool {
    forall|i: int| 0 <= i < s.len() ==> is_digit(#[trigger] s[i])
}

/// The number that a string of decimal digits writes.
pub open spec fn digits_value(s: Seq<char>) -> int
    decreases s.len(),
{
    if s.len() == 0 {
        0
    } else {
        digits_value(s.drop_last()) * 10 + digit_of(s.last())
    }
}

pub open spec fn pow10(n: nat) -> int
    decreases n,
{
    if n == 0 {
        1
    } else {
        10 * pow10((n - 1) as nat)
    }
}

/// The index of the first '.', or the length where there is none.
pub open spec fn dot_pos(s: Seq<char>) -> int
    decreases s.len(),
{
    if s.len() == 0 {
        0
    } else if s[0] == '.' {
        0
    } else {
        1 + dot_pos(s.skip(1))
    }
}

/// The fixed-point value that `s` writes: one or more digits, then
/// optionally a '.' and at most `FRACTION_DIGITS` more digits; none for any
/// other text.
pub open spec fn fixed_value(s: Seq<char>) -> Option<int> {
    let d = dot_pos(s);
    let ip = s.take(d);
    let fp = if d < s.len() {
        s.skip(d + 1)
    } else {
        Seq::<char>::empty()
    };
    if d >= 1 && all_digits(ip) && all_digits(fp) && fp.len() <= FRACTION_DIGITS {
        Some(digits_value(ip) * QTY_SCALE + digits_value(fp) * pow10((FRACTION_DIGITS - fp.len()) as nat))
    } else {
        None
    }
}

proof fn lemma_dot_pos(s: Seq<char>, d: int)
    requires
        0 <= d <= s.len(),
        d == s.len() || s[d] == '.',
        forall|k: int| 0 <= k < d ==> s[k] != '.',
    ensures
        dot_pos(s) == d,
    decreases d,
{
    if d > 0 {
        let t = s.skip(1);
        assert forall|k: int| 0 <= k < d - 1 implies t[k] != '.' by {
            assert(t[k] == s[k + 1]);
        }
        if d < s.len() {
            assert(t[d - 1] == s[d]);
        }
        lemma_dot_pos(t, d - 1);
    }
}

proof fn lemma_digits_monotone(s: Seq<char>, k: int)
    requires
        0 <= k <= s.len(),
        all_digits(s),
    ensures
        0 <= digits_value(s.take(k)) <= digits_value(s),
    decreases s.len(),
{
    if k == s.len() {
        assert(s.take(k) =~= s);
        lemma_digits_nonneg(s);
    } else {
        let p = s.drop_last();
        assert(p.take(k) =~= s.take(k));
        assert(all_digits(p)) by {
            assert forall|i: int| 0 <= i < p.len() implies is_digit(#[trigger] p[i]) by {
                assert(p[i] == s[i]);
            }
        }
        lemma_digits_monotone(p, k);
        assert(is_digit(s[s.len() - 1]));
    }
}

proof fn lemma_digits_nonneg(s: Seq<char>)
    requires
        all_digits(s),
    ensures
        digits_value(s) >= 0,
    decreases s.len(),
{
    if s.len() > 0 {
        let p = s.drop_last();
        assert(all_digits(p)) by {
            assert forall|i: int| 0 <= i < p.len() implies is_digit(#[trigger] p[i]) by {
                assert(p[i] == s[i]);
            }
        }
        lemma_digits_nonneg(p);
        assert(is_digit(s[s.len() - 1]));
    }
}

/// Reads the digits of `s` from index `from` up to `to`; none where one is
/// not a digit; `big` where the value exceeds `u64::MAX`.
fn read_digits(s: &str, from: usize, to: usize) -> (r: Option<(u64, bool)>)
    requires
        from <= to <= s@.len(),
    ensures
        match r {
            Some((v, big)) => all_digits(s@.subrange(from as int, to as int)) && (!big ==> v
                == digits_value(s@.subrange(from as int, to as int))) && (big ==> digits_value(
                s@.subrange(from as int, to as int),
            ) > u64::MAX),
            None => !all_digits(s@.subrange(from as int, to as int)),
        },
{
    let ghost full = s@.subrange(from as int, to as int);
    let mut v: u64 = 0;
    let mut big = false;
    let mut i: usize = from;
    while i < to
        invariant
            from <= i <= to <= s@.len(),
            full == s@.subrange(from as int, to as int),
            all_digits(s@.subrange(from as int, i as int)),
            !big ==> v == digits_value(s@.subrange(from as int, i as int)),
            big ==> digits_value(s@.subrange(from as int, i as int)) > u64::MAX,
        decreases to - i,
    {
        let c = s.get_char(i);
        let ghost pre = s@.subrange(from as int, i as int);
        let ghost next = s@.subrange(from as int, i + 1);
        proof {
            assert(next.drop_last() =~= pre);
            assert(next.last() == c);
        }
        if !('0' <= c && c <= '9') {
            proof {
                assert(full[i - from] == c);
            }
            return None;
        }
        proof {
            assert(all_digits(next)) by {
                assert forall|k: int| 0 <= k < next.len() implies is_digit(#[trigger] next[k]) by {
                    if k < pre.len() {
                        assert(next[k] == pre[k]);
                    }
                }
            }
            lemma_digits_nonneg(pre);
        }
        let d = (c as u64) - ('0' as u64);
        if !big {
            if v > (u64::MAX - d) / 10 {
                big = true;
            } else {
                v = v * 10 + d;
            }
        }
        i += 1;
    }
    Some((v, big))
}

/// Reads a decimal text as a fixed-point value with `FRACTION_DIGITS`
/// decimals; none where the text is malformed or the value does not fit.
pub fn parse_fixed(s: &str) -> (r: Option<u64>)
    ensures
        match r {
            Some(v) => fixed_value(s@) == Some(v as int),
            None => fixed_value(s@) is None || fixed_value(s@).unwrap() > u64::MAX,
        },
{
    let n = s.unicode_len();
    let mut d: usize = 0;
    while d < n && s.get_char(d) != '.'
        invariant
            d <= n,
            n == s@.len(),
            forall|k: int| 0 <= k < d ==> s@[k] != '.',
        decreases n - d,
    {
        d += 1;
    }
    proof {
        lemma_dot_pos(s@, d as int);
        assert(s@.take(d as int) =~= s@.subrange(0, d as int));
        if d < n {
            assert(s@.skip(d + 1) =~= s@.subrange(d + 1, n as int));
        }
    }
    if d == 0 {
        return None;
    }
    let fstart = if d < n {
        d + 1
    } else {
        n
    };
    proof {
        if d == n {
            assert(s@.subrange(n as int, n as int) =~= Seq::<char>::empty());
        }
    }
    if n - fstart > FRACTION_DIGITS {
        return None;
    }
    let ip = read_digits(s, 0, d);
    let fp = read_digits(s, fstart, n);
    match (ip, fp) {
        (Some((iv, ibig)), Some((fv, fbig))) => {
            let ghost fs = s@.subrange(fstart as int, n as int);
            let flen = n - fstart;
            proof {
                lemma_pow10_values();
            }
            let mut scale: u64 = QTY_SCALE;
            let mut k: usize = 0;
            while k < flen
                invariant
                    k <= flen <= FRACTION_DIGITS,
                    scale == pow10((FRACTION_DIGITS - k) as nat),
                    scale <= QTY_SCALE,
                decreases flen - k,
            {
                proof {
                    let m = (FRACTION_DIGITS - k - 1) as nat;
                    assert(pow10((FRACTION_DIGITS - k) as nat) == 10 * pow10(m));
                    assert((10 * pow10(m)) / 10 == pow10(m)) by (nonlinear_arith);
                }
                scale = scale / 10;
                k += 1;
            }
            if ibig {
                proof {
                    lemma_digits_nonneg(fs);
                    assert(pow10((FRACTION_DIGITS - flen) as nat) >= 1) by {
                        lemma_pow10_pos((FRACTION_DIGITS - flen) as nat);
                    }
                    assert(digits_value(fs) * pow10((FRACTION_DIGITS - flen) as nat) >= 0) by (nonlinear_arith)
                        requires digits_value(fs) >= 0, pow10((FRACTION_DIGITS - flen) as nat) >= 1;
                }
                return None;
            }
            proof {
                lemma_fraction_bound(fs);
                lemma_digits_nonneg(fs);
            }
            if fbig {
                proof {
                    lemma_pow10_mono(fs.len(), FRACTION_DIGITS as nat);
                }
                return None;
            }
            assert(iv as u128 * 100_000_000 <= 0xffff_ffff_ffff_ffff * 100_000_000) by (nonlinear_arith)
                requires
                    iv <= 0xffff_ffff_ffff_ffff,
            ;
            assert(fv as u128 * scale as u128 <= 0xffff_ffff_ffff_ffff * 100_000_000) by (nonlinear_arith)
                requires
                    fv <= 0xffff_ffff_ffff_ffff,
                    scale <= 100_000_000,
            ;
            let total = iv as u128 * (QTY_SCALE as u128) + fv as u128 * scale as u128;
            if total > u64::MAX as u128 {
                return None;
            }
            Some(total as u64)
        },
        _ => None,
    }
}

proof fn lemma_pow10_values()
    ensures
        pow10(FRACTION_DIGITS as nat) == QTY_SCALE,
{
    reveal_with_fuel(pow10, 9);
}

proof fn lemma_pow10_mono(a: nat, b: nat)
    requires
        a <= b,
    ensures
        pow10(a) <= pow10(b),
    decreases b,
{
    if a < b {
        lemma_pow10_mono(a, (b - 1) as nat);
        lemma_pow10_pos((b - 1) as nat);
    }
}

proof fn lemma_pow10_pos(n: nat)
    ensures
        pow10(n) >= 1,
    decreases n,
{
    if n > 0 {
        lemma_pow10_pos((n - 1) as nat);
    }
}

/// At most `FRACTION_DIGITS` digits write a value under `10^FRACTION_DIGITS`.
proof fn lemma_fraction_bound(fs: Seq<char>)
    requires
        all_digits(fs),
    ensures
        digits_value(fs) < pow10(fs.len()),
    decreases fs.len(),
{
    if fs.len() > 0 {
        let p = fs.drop_last();
        assert(all_digits(p)) by {
            assert forall|i: int| 0 <= i < p.len() implies is_digit(#[trigger] p[i]) by {
                assert(p[i] == fs[i]);
            }
        }
        lemma_fraction_bound(p);
        assert(is_digit(fs[fs.len() - 1]));
    }
}

impl SpotQuote {
    /// Reads a spot quote from the venue's decimal texts; none where one of
    /// them is malformed or does not fit.
    pub fn parse(best_bid: &str, best_bid_qty: &str, best_ask: &str, best_ask_qty: &str) -> (r: Option<SpotQuote>)
        ensures
            match r {
                Some(q) => fixed_value(best_bid@) == Some(q.best_bid as int) && fixed_value(best_bid_qty@)
                    == Some(q.best_bid_qty as int) && fixed_value(best_ask@) == Some(q.best_ask as int)
                    && fixed_value(best_ask_qty@) == Some(q.best_ask_qty as int),
                None => !(fits(fixed_value(best_bid@)) && fits(fixed_value(best_bid_qty@)) && fits(
                    fixed_value(best_ask@),
                ) && fits(fixed_value(best_ask_qty@))),
            },
    {
        match (parse_fixed(best_bid), parse_fixed(best_bid_qty), parse_fixed(best_ask), parse_fixed(best_ask_qty)) {
            (Some(a), Some(b), Some(c), Some(d)) => Some(SpotQuote { best_bid: a, best_bid_qty: b, best_ask: c, best_ask_qty: d }),
            _ => None,
        }
    }
}

/// The text wrote a value that fits in a `u64`.
pub open spec fn fits(v: Option<int>) -> bool {
    v matches Some(x) && x <= u64::MAX
}

} // verus!
