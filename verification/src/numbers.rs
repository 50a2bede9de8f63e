//! Byte-level reading and writing of the numeric fields of a skeleton
//! line: whole numbers, signed whole numbers, and positions with up to two
//! decimal places kept as hundredths.

use vstd::prelude::*;

use crate::node::MAX_POS;

verus! {

pub open spec fn is_digit(b: u8) -> bool {
    48 <= b <= 57
}

pub open spec fn digit_val(b: u8) -> int {
    b - 48
}

pub open spec fn all_digits(s: Seq<u8>) -> bool {
    forall|i: int| 0 <= i < s.len() ==> is_digit(#[trigger] s[i])
}

/// The value of a digit string, most significant digit first.
pub open spec fn digits_val(s: Seq<u8>) -> int
    decreases s.len(),
{
    if s.len() == 0 {
        0
    } else {
        digits_val(s.drop_last()) * 10 + digit_val(s.last())
    }
}

pub proof fn lemma_digits_val_nonneg(s: Seq<u8>)
    requires
        all_digits(s),
    ensures
        digits_val(s) >= 0,
    decreases s.len(),
{
    if s.len() > 0 {
        lemma_digits_val_nonneg(s.drop_last());
    }
}

/// A digit string is worth at least any of its prefixes.
pub proof fn lemma_digits_prefix_le(s: Seq<u8>, k: int)
    requires
        all_digits(s),
        0 <= k <= s.len(),
    ensures
        digits_val(s.take(k)) <= digits_val(s),
    decreases s.len(),
{
    if k == s.len() {
        assert(s.take(k) =~= s);
    } else {
        assert(s.drop_last().take(k) =~= s.take(k));
        lemma_digits_prefix_le(s.drop_last(), k);
        lemma_digits_val_nonneg(s.drop_last());
    }
}

/// The value of a digit run, or `None` when the run is empty, holds a
/// non-digit, or exceeds `u64::MAX`.
pub open spec fn digits_parse(t: Seq<u8>) -> Option<u64> {
    if t.len() > 0 && all_digits(t) && digits_val(t) <= u64::MAX {
        Some(digits_val(t) as u64)
    } else {
        None
    }
}

/// Reads the digit run `s[from..to]` as a whole number.
pub fn parse_digits(s: &Vec<u8>, from: usize, to: usize) -> (r: Option<u64>)
    requires
        from <= to <= s@.len(),
    ensures
        r == digits_parse(s@.subrange(from as int, to as int)),
{
    let ghost t = s@.subrange(from as int, to as int);
    if from == to {
        return None;
    }
    let mut acc: u64 = 0;
    let mut i: usize = from;
    while i < to
        invariant
            from <= i <= to <= s@.len(),
            t == s@.subrange(from as int, to as int),
            all_digits(t.take(i - from)),
            acc == digits_val(t.take(i - from)),
        decreases to - i,
    {
        let b = s[i];
        assert(t[i - from] == b);
        if !(48 <= b && b <= 57) {
            assert(!all_digits(t));
            return None;
        }
        let d: u64 = (b - 48) as u64;
        assert(t.take(i + 1 - from).drop_last() =~= t.take(i - from));
        if acc > u64::MAX / 10 || (acc == u64::MAX / 10 && d > u64::MAX % 10) {
            proof {
                assert(digits_val(t.take(i + 1 - from)) > u64::MAX);
                if all_digits(t) {
                    lemma_digits_prefix_le(t, i + 1 - from);
                }
            }
            return None;
        }
        acc = acc * 10 + d;
        i = i + 1;
    }
    assert(t.take(to - from) =~= t);
    Some(acc)
}

/// `s` without one leading `+`, the form unsigned parsing accepts.
pub open spec fn plus_body(t: Seq<u8>) -> Seq<u8> {
    if t.len() > 0 && t[0] == 43 {
        t.skip(1)
    } else {
        t
    }
}

/// The whole number a field holds: an optional `+`, then digits.
pub open spec fn u64_parse(t: Seq<u8>) -> Option<u64> {
    digits_parse(plus_body(t))
}

/// Reads a field as a whole number.
pub fn parse_u64(s: &Vec<u8>) -> (r: Option<u64>)
    ensures
        r == u64_parse(s@),
{
    let from: usize = if s.len() > 0 && s[0] == 43 {
        1
    } else {
        0
    };
    proof {
        if from == 1 {
            assert(s@.subrange(1, s@.len() as int) =~= plus_body(s@));
        } else {
            assert(s@.subrange(0, s@.len() as int) =~= plus_body(s@));
        }
    }
    parse_digits(s, from, s.len())
}

/// Whether a signed field begins with `-`.
pub open spec fn sign_neg(t: Seq<u8>) -> bool {
    t.len() > 0 && t[0] == 45
}

/// `s` without one leading `+` or `-`.
pub open spec fn sign_body(t: Seq<u8>) -> Seq<u8> {
    if t.len() > 0 && (t[0] == 43 || t[0] == 45) {
        t.skip(1)
    } else {
        t
    }
}

/// The signed whole number a field holds.
pub open spec fn i64_parse(t: Seq<u8>) -> Option<i64> {
    let b = sign_body(t);
    if b.len() > 0 && all_digits(b) {
        let m = digits_val(b);
        if sign_neg(t) {
            if m <= 0x8000_0000_0000_0000 {
                Some((-m) as i64)
            } else {
                None
            }
        } else {
            if m <= i64::MAX {
                Some(m as i64)
            } else {
                None
            }
        }
    } else {
        None
    }
}

/// Reads a field as a signed whole number.
pub fn parse_i64(s: &Vec<u8>) -> (r: Option<i64>)
    ensures
        r == i64_parse(s@),
{
    let mut neg = false;
    let mut from: usize = 0;
    if s.len() > 0 && (s[0] == 43 || s[0] == 45) {
        neg = s[0] == 45;
        from = 1;
    }
    proof {
        if from == 1 {
            assert(s@.subrange(1, s@.len() as int) =~= sign_body(s@));
        } else {
            assert(s@.subrange(0, s@.len() as int) =~= sign_body(s@));
        }
        lemma_digits_val_nonneg_if(s@);
    }
    let m = match parse_digits(s, from, s.len()) {
        Some(m) => m,
        None => {
            proof {
                let b = sign_body(s@);
                if b.len() > 0 && all_digits(b) {
                    lemma_digits_val_nonneg(b);
                }
            }
            return None;
        },
    };
    if neg {
        if m > 0x8000_0000_0000_0000 {
            None
        } else if m == 0x8000_0000_0000_0000 {
            Some(i64::MIN)
        } else {
            Some(-(m as i64))
        }
    } else {
        if m > i64::MAX as u64 {
            None
        } else {
            Some(m as i64)
        }
    }
}

proof fn lemma_digits_val_nonneg_if(t: Seq<u8>)
    ensures
        all_digits(sign_body(t)) ==> digits_val(sign_body(t)) >= 0,
{
    if all_digits(sign_body(t)) {
        lemma_digits_val_nonneg(sign_body(t));
    }
}

/// Index of the first `.` in `t`, or `t.len()` when there is none.
pub open spec fn dot_pos(t: Seq<u8>) -> int
    decreases t.len(),
{
    if t.len() == 0 {
        0
    } else if t[0] == 46 {
        0
    } else {
        1 + dot_pos(t.skip(1))
    }
}

/// A position where the first `.` stands determines `dot_pos`.
pub proof fn lemma_dot_pos_is(t: Seq<u8>, k: int)
    requires
        0 <= k <= t.len(),
        forall|j: int| 0 <= j < k ==> t[j] != 46,
        k < t.len() ==> t[k] == 46,
    ensures
        dot_pos(t) == k,
    decreases t.len(),
{
    if t.len() > 0 && t[0] != 46 {
        assert forall|j: int| 0 <= j < k - 1 implies t.skip(1)[j] != 46 by {
            assert(t[j + 1] != 46);
        }
        assert(k - 1 < t.skip(1).len() ==> t.skip(1)[k - 1] == t[k]);
        lemma_dot_pos_is(t.skip(1), k - 1);
    }
}

/// Hundredths held by a fraction field: its first digit counts as tens of
/// hundredths, its second as hundredths; anything deeper is cut off.
pub open spec fn frac_hundredths(f: Seq<u8>) -> int {
    (if f.len() >= 1 {
        10 * digit_val(f[0])
    } else {
        0
    }) + (if f.len() >= 2 {
        digit_val(f[1])
    } else {
        0
    })
}

/// The position a field holds, in hundredths: an optional sign, digits, and
/// an optional `.` with further digits, of which the first two count.
/// Magnitudes beyond [`MAX_POS`] are refused.
pub open spec fn fixed_parse(t: Seq<u8>) -> Option<i64> {
    let b = sign_body(t);
    let k = dot_pos(b);
    let ip = b.take(k);
    let fp = if k < b.len() {
        b.skip(k + 1)
    } else {
        Seq::<u8>::empty()
    };
    if ip.len() + fp.len() > 0 && all_digits(ip) && all_digits(fp) {
        let m = digits_val(ip) * 100 + frac_hundredths(fp);
        if 0 <= m <= MAX_POS {
            if sign_neg(t) {
                Some((-m) as i64)
            } else {
                Some(m as i64)
            }
        } else {
            None
        }
    } else {
        None
    }
}

/// Reads the fraction digits `s[start..]`, worth `frac_hundredths` of a
/// unit, or `None` when a non-digit stands among them.
fn scan_frac(s: &Vec<u8>, start: usize) -> (r: Option<u64>)
    requires
        start <= s@.len(),
    ensures
        match r {
            Some(f) => all_digits(s@.skip(start as int)) && f == frac_hundredths(
                s@.skip(start as int),
            ),
            None => !all_digits(s@.skip(start as int)),
        },
{
    let ghost fp = s@.skip(start as int);
    let mut f0: u64 = 0;
    let mut f1: u64 = 0;
    let mut j: usize = start;
    while j < s.len()
        invariant
            start <= j <= s@.len(),
            fp == s@.skip(start as int),
            forall|i: int| 0 <= i < j - start ==> is_digit(#[trigger] fp[i]),
            f0 == if j > start {
                digit_val(fp[0])
            } else {
                0
            },
            f1 == if j > start + 1 {
                digit_val(fp[1])
            } else {
                0
            },
        decreases s@.len() - j,
    {
        let c = s[j];
        assert(fp[j - start] == c);
        if !(48 <= c && c <= 57) {
            assert(!is_digit(fp[j - start]));
            return None;
        }
        if j == start {
            f0 = (c - 48) as u64;
        } else if j == start + 1 {
            f1 = (c - 48) as u64;
        }
        j = j + 1;
    }
    Some(10 * f0 + f1)
}

/// Reads a field as a position in hundredths.
#[verifier::rlimit(30)]
pub fn parse_fixed(s: &Vec<u8>) -> (r: Option<i64>)
    ensures
        r == fixed_parse(s@),
{
    let mut neg = false;
    let mut from: usize = 0;
    if s.len() > 0 && (s[0] == 43 || s[0] == 45) {
        neg = s[0] == 45;
        from = 1;
    }
    let ghost b = sign_body(s@);
    proof {
        assert(s@.subrange(from as int, s@.len() as int) =~= b);
    }
    // Find the first dot at or after `from`.
    let mut dot: usize = from;
    while dot < s.len() && s[dot] != 46
        invariant
            from <= dot <= s@.len(),
            forall|j: int| from <= j < dot ==> s@[j] != 46,
        decreases s@.len() - dot,
    {
        dot = dot + 1;
    }
    proof {
        assert forall|j: int| 0 <= j < dot - from implies b[j] != 46 by {
            assert(s@[j + from] != 46);
        }
        assert(dot < s@.len() ==> b[dot - from] == s@[dot as int]);
        lemma_dot_pos_is(b, dot - from);
    }
    let ghost k = dot_pos(b);
    let ghost ip = b.take(k);
    let ghost fp = if k < b.len() {
        b.skip(k + 1)
    } else {
        Seq::<u8>::empty()
    };
    proof {
        assert(ip =~= s@.subrange(from as int, dot as int));
    }
    // Fraction part: all of it must be digits; the first two carry value.
    let frac: u64 = if dot < s.len() {
        proof {
            assert(fp =~= s@.skip(dot + 1));
        }
        match scan_frac(s, dot + 1) {
            Some(f) => f,
            None => {
                return None;
            },
        }
    } else {
        proof {
            assert(fp.len() == 0);
        }
        0
    };
    assert(frac == frac_hundredths(fp));
    proof {
        if fp.len() >= 1 {
            assert(is_digit(fp[0]));
        }
        if fp.len() >= 2 {
            assert(is_digit(fp[1]));
        }
        assert(frac_hundredths(fp) >= 0);
    }
    // Whole part.
    let vi: u64 = if from == dot {
        proof {
            assert(ip.len() == 0);
            assert(digits_val(ip) == 0);
        }
        0
    } else {
        match parse_digits(s, from, dot) {
            Some(v) => v,
            None => {
                proof {
                    assert(ip.len() > 0);
                    if all_digits(ip) {
                        // The run is over `u64::MAX`, far past `MAX_POS`.
                        lemma_digits_val_nonneg(ip);
                        assert(digits_val(ip) > u64::MAX);
                        assert(digits_val(ip) * 100 + frac_hundredths(fp) > MAX_POS);
                    }
                }
                return None;
            },
        }
    };
    if from == dot && dot + 1 >= s.len() {
        // A bare sign or a bare dot holds no digits at all.
        assert(ip.len() + fp.len() == 0);
        return None;
    }
    // Magnitude check against MAX_POS.
    proof {
        if all_digits(ip) {
            lemma_digits_val_nonneg(ip);
        }
    }
    if vi > (MAX_POS as u64) / 100 {
        return None;
    }
    let m: u64 = vi * 100 + frac;
    if m > MAX_POS as u64 {
        return None;
    }
    if neg {
        Some(-(m as i64))
    } else {
        Some(m as i64)
    }
}

/// Decimal digits of a whole number, most significant first.
pub open spec fn dec_digits(n: int) -> Seq<u8>
    decreases n,
{
    if n < 10 {
        seq![(48 + n) as u8]
    } else {
        dec_digits(n / 10).push((48 + n % 10) as u8)
    }
}

pub proof fn lemma_dec_digits(n: int)
    requires
        0 <= n,
    ensures
        all_digits(dec_digits(n)),
        dec_digits(n).len() >= 1,
        digits_val(dec_digits(n)) == n,
    decreases n,
{
    if n < 10 {
        assert(digits_val(dec_digits(n).drop_last()) == 0);
    } else {
        lemma_dec_digits(n / 10);
        let d = dec_digits(n / 10);
        let b = (48 + n % 10) as u8;
        assert(d.push(b).drop_last() =~= d);
        assert forall|i: int| 0 <= i < d.push(b).len() implies is_digit(#[trigger] d.push(b)[i]) by {
            if i < d.len() {
                assert(is_digit(d[i]));
            }
        }
    }
}

/// Writing a whole number and reading it back is the identity.
pub proof fn lemma_u64_round_trip(n: u64)
    ensures
        u64_parse(dec_digits(n as int)) == Some(n),
{
    lemma_dec_digits(n as int);
    let t = dec_digits(n as int);
    assert(is_digit(t[0]));
    assert(plus_body(t) == t);
}

/// Writes a whole number in decimal.
pub fn render_u64(n: u64) -> (r: Vec<u8>)
    ensures
        r@ == dec_digits(n as int),
    decreases n,
{
    if n < 10 {
        let mut r: Vec<u8> = Vec::new();
        r.push(48 + n as u8);
        proof {
            assert(r@ =~= dec_digits(n as int));
        }
        r
    } else {
        let mut r = render_u64(n / 10);
        r.push(48 + (n % 10) as u8);
        proof {
            assert(r@ =~= dec_digits(n as int));
        }
        r
    }
}

/// A position written back as the file holds it: an optional `-`, the whole
/// units, and exactly two decimal places.
pub open spec fn fixed_bytes(v: int) -> Seq<u8> {
    let m = if v < 0 {
        -v
    } else {
        v
    };
    let sign: Seq<u8> = if v < 0 {
        seq![45u8]
    } else {
        Seq::<u8>::empty()
    };
    sign + dec_digits(m / 100) + seq![46u8, (48 + (m / 10) % 10) as u8, (48 + m % 10) as u8]
}

/// Writes a position held in hundredths with two decimal places.
pub fn render_fixed(v: i64) -> (r: Vec<u8>)
    requires
        -MAX_POS <= v <= MAX_POS,
    ensures
        r@ == fixed_bytes(v as int),
{
    let mut r: Vec<u8> = Vec::new();
    let m: u64 = if v < 0 {
        r.push(45);
        (-v) as u64
    } else {
        v as u64
    };
    let mut d = render_u64(m / 100);
    r.append(&mut d);
    r.push(46);
    r.push(48 + ((m / 10) % 10) as u8);
    r.push(48 + (m % 10) as u8);
    proof {
        assert(r@ =~= fixed_bytes(v as int));
    }
    r
}

/// Writing a position and reading it back is the identity.
pub proof fn lemma_fixed_round_trip(v: int)
    requires
        -MAX_POS <= v <= MAX_POS,
    ensures
        fixed_parse(fixed_bytes(v)) == Some(v as i64),
{
    let m = if v < 0 {
        -v
    } else {
        v
    };
    let t = fixed_bytes(v);
    lemma_dec_digits(m / 100);
    let d = dec_digits(m / 100);
    let tail = seq![46u8, (48 + (m / 10) % 10) as u8, (48 + m % 10) as u8];
    assert(is_digit(d[0]));
    // The sign is read off correctly and stripped.
    let b = sign_body(t);
    if v < 0 {
        assert(t[0] == 45);
        assert(sign_neg(t));
        assert(b =~= d + tail);
    } else {
        assert(t[0] == d[0]);
        assert(!sign_neg(t));
        assert(b =~= d + tail);
    }
    // The dot stands right after the whole digits.
    assert forall|j: int| 0 <= j < d.len() implies b[j] != 46 by {
        assert(is_digit(d[j]));
    }
    assert(b[d.len() as int] == 46);
    lemma_dot_pos_is(b, d.len() as int);
    let ip = b.take(d.len() as int);
    let fp = b.skip(d.len() as int + 1);
    assert(ip =~= d);
    assert(fp =~= seq![(48 + (m / 10) % 10) as u8, (48 + m % 10) as u8]);
    assert(0 <= (m / 10) % 10 < 10);
    assert(0 <= m % 10 < 10);
    assert(all_digits(fp));
    assert(frac_hundredths(fp) == 10 * ((m / 10) % 10) + m % 10);
    // The two decimal places carry exactly the hundredths of the magnitude.
    assert(m == (m / 10) * 10 + m % 10);
    assert(m / 100 == (m / 10) / 10);
    assert(m / 10 == ((m / 10) / 10) * 10 + (m / 10) % 10);
    assert(digits_val(ip) * 100 + frac_hundredths(fp) == m);
}

} // verus!
