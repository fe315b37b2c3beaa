//! Normalization and parsing of provider-formatted value strings.
//!
//! A reading such as `"23,5 °C"` is normalized — the unit suffixes
//! `" °C"` and `"°C"` stripped in that order, every comma replaced by a
//! dot, then the surrounding whitespace trimmed — and parsed as an exact
//! decimal. A string that is not a valid decimal after normalization
//! yields no reading.

use vstd::prelude::*;
use crate::decimal::{Decimal, MAX_SCALE};

verus! {

/// Decimal digit, `'0'` through `'9'`.
pub open spec fn is_digit(c: char) -> bool {
    48 <= c as u32 && c as u32 <= 57
}

/// Numeric value of a decimal digit.
pub open spec fn digit_val(c: char) -> int {
    c as u32 - 48
}

/// Whitespace stripped from the ends of a value string: the Unicode
/// White_Space characters, the set `str::trim` removes.
pub open spec fn is_space(c: char) -> bool {
    ||| c == ' '
    ||| c == '\t'
    ||| c == '\n'
    ||| c == '\u{000b}'
    ||| c == '\u{000c}'
    ||| c == '\r'
    ||| c == '\u{0085}'
    ||| c == '\u{00a0}'
    ||| c == '\u{1680}'
    ||| ('\u{2000}' <= c && c <= '\u{200a}')
    ||| c == '\u{2028}'
    ||| c == '\u{2029}'
    ||| c == '\u{202f}'
    ||| c == '\u{205f}'
    ||| c == '\u{3000}'
}

pub open spec fn all_digits(s: Seq<char>) -> bool {
    forall|i: int| 0 <= i < s.len() ==> is_digit(s[i])
}

/// The integer written by a sequence of decimal digits (most significant first).
pub open spec fn digits_val(s: Seq<char>) -> int
    decreases s.len(),
{
    if s.len() == 0 {
        0
    } else {
        10 * digits_val(s.drop_last()) + digit_val(s.last())
    }
}

/// The string with leading and trailing whitespace removed.
pub open spec fn spec_trim(s: Seq<char>) -> Seq<char>
    decreases s.len(),
{
    if s.len() > 0 && is_space(s[0]) {
        spec_trim(s.drop_first())
    } else if s.len() > 0 && is_space(s.last()) {
        spec_trim(s.drop_last())
    } else {
        s
    }
}

/// Every occurrence of `pat` replaced by `rep`, leftmost first,
/// non-overlapping — the way `str::replace` rewrites a string.
pub open spec fn spec_replace(s: Seq<char>, pat: Seq<char>, rep: Seq<char>) -> Seq<char>
    decreases s.len(),
{
    if pat.len() == 0 || s.len() < pat.len() {
        s
    } else if s.take(pat.len() as int) == pat {
        rep + spec_replace(s.skip(pat.len() as int), pat, rep)
    } else {
        seq![s[0]] + spec_replace(s.drop_first(), pat, rep)
    }
}

/// The unit suffix with a leading space, stripped first.
pub open spec fn pat_unit_spaced() -> Seq<char> {
    seq![' ', '\u{00b0}', 'C']
}

/// The bare unit suffix, stripped second.
pub open spec fn pat_unit() -> Seq<char> {
    seq!['\u{00b0}', 'C']
}

/// Full normalization of a raw value string: strip `" °C"`, then
/// `"°C"`, turn every comma into a dot, and trim the surrounding
/// whitespace last.
pub open spec fn spec_normalize(s: Seq<char>) -> Seq<char> {
    spec_trim(
        spec_replace(
            spec_replace(
                spec_replace(s, pat_unit_spaced(), Seq::<char>::empty()),
                pat_unit(),
                Seq::<char>::empty(),
            ),
            seq![','],
            seq!['.'],
        ),
    )
}

/// Index of the first occurrence of `c` in `s`, or a negative number if
/// there is none.
pub open spec fn first_occ(s: Seq<char>, c: char) -> int
    decreases s.len(),
{
    if s.len() == 0 {
        -1
    } else if s[0] == c {
        0
    } else if first_occ(s.drop_first(), c) < 0 {
        -1
    } else {
        1 + first_occ(s.drop_first(), c)
    }
}

/// Index of the first `'.'` in `s`, or a negative number if there is none.
pub open spec fn first_dot(s: Seq<char>) -> int {
    first_occ(s, '.')
}

/// Grammar and value of an unsigned decimal literal: digits with at most
/// one dot and at least one digit. Returns the significant digits (integer
/// part followed by the kept fraction digits) and the scale; fraction
/// digits beyond `MAX_SCALE` are dropped.
pub open spec fn unsigned_digits(u: Seq<char>) -> Option<(Seq<char>, nat)> {
    let d = first_dot(u);
    if d < 0 {
        if u.len() >= 1 && all_digits(u) {
            Some((u, 0))
        } else {
            None
        }
    } else {
        let ip = u.take(d);
        let fpfull = u.skip(d + 1);
        if all_digits(ip) && all_digits(fpfull) && ip.len() + fpfull.len() >= 1 {
            let fp = if fpfull.len() > MAX_SCALE { fpfull.take(MAX_SCALE as int) } else { fpfull };
            Some((ip + fp, fp.len()))
        } else {
            None
        }
    }
}

/// The decimal denoted by a normalized literal: an optional sign, then an
/// unsigned literal, with a mantissa that must fit an `i64`.
pub open spec fn spec_parse_dec(s: Seq<char>) -> Option<Decimal> {
    let neg = s.len() > 0 && s[0] == '-';
    let u = if s.len() > 0 && (s[0] == '-' || s[0] == '+') { s.drop_first() } else { s };
    match unsigned_digits(u) {
        None => None,
        Some((ds, sc)) => {
            let mag = digits_val(ds);
            let m = if neg { -mag } else { mag };
            if -0x8000000000000000 <= m && m <= 0x7fffffffffffffff {
                Some(Decimal { mantissa: m as i64, scale: sc as u32 })
            } else {
                None
            }
        },
    }
}

/// What `parse_temperature` returns: the decimal denoted by the
/// normalized value string, if any.
pub open spec fn spec_parse_temperature(s: Seq<char>) -> Option<Decimal> {
    spec_parse_dec(spec_normalize(s))
}

fn ch_is_space(c: char) -> (b: bool)
    ensures
        b == is_space(c),
{
    c == ' ' || c == '\t' || c == '\n' || c == '\u{000b}' || c == '\u{000c}' || c == '\r'
        || c == '\u{0085}' || c == '\u{00a0}' || c == '\u{1680}' || ('\u{2000}' <= c && c
        <= '\u{200a}') || c == '\u{2028}' || c == '\u{2029}' || c == '\u{202f}' || c
        == '\u{205f}' || c == '\u{3000}'
}

fn ch_is_digit(c: char) -> (b: bool)
    ensures
        b == is_digit(c),
{
    let v = c as u32;
    48 <= v && v <= 57
}

/// The characters of `s`, in order.
pub fn str_to_chars(s: &str) -> (r: Vec<char>)
    ensures
        r@ == s@,
{
    let n = s.unicode_len();
    let mut r: Vec<char> = Vec::new();
    let mut i: usize = 0;
    while i < n
        invariant
            n == s@.len(),
            i <= n,
            r@ == s@.take(i as int),
        decreases n - i,
    {
        r.push(s.get_char(i));
        proof {
            assert(r@ =~= s@.take(i + 1));
        }
        i = i + 1;
    }
    proof {
        assert(s@.take(n as int) =~= s@);
    }
    r
}

fn trim_chars(s: &Vec<char>) -> (r: Vec<char>)
    ensures
        r@ == spec_trim(s@),
{
    let mut lo: usize = 0;
    let mut hi: usize = s.len();
    proof {
        assert(s@.subrange(0, s@.len() as int) =~= s@);
    }
    while lo < hi && ch_is_space(s[lo])
        invariant
            lo <= hi <= s.len(),
            spec_trim(s@) == spec_trim(s@.subrange(lo as int, hi as int)),
        decreases hi - lo,
    {
        proof {
            let w = s@.subrange(lo as int, hi as int);
            assert(w.drop_first() =~= s@.subrange(lo + 1, hi as int));
        }
        lo = lo + 1;
    }
    while lo < hi && ch_is_space(s[hi - 1])
        invariant
            lo <= hi <= s.len(),
            spec_trim(s@) == spec_trim(s@.subrange(lo as int, hi as int)),
            lo < hi ==> !is_space(s@[lo as int]),
        decreases hi - lo,
    {
        proof {
            let w = s@.subrange(lo as int, hi as int);
            assert(w.drop_last() =~= s@.subrange(lo as int, hi - 1));
        }
        hi = hi - 1;
    }
    let mut r: Vec<char> = Vec::new();
    let mut i: usize = lo;
    while i < hi
        invariant
            lo <= i <= hi <= s.len(),
            r@ == s@.subrange(lo as int, i as int),
        decreases hi - i,
    {
        r.push(s[i]);
        proof {
            assert(r@ =~= s@.subrange(lo as int, i + 1));
        }
        i = i + 1;
    }
    proof {
        let w = s@.subrange(lo as int, hi as int);
        assert(r@ =~= w);
    }
    r
}

/// Relies on String's `FromIterator<char>`: collecting characters builds
/// the string of exactly those characters, in order.
#[verifier::external_body]
pub(crate) fn chars_to_string(v: &Vec<char>) -> (r: String)
    ensures
        r@ == v@,
{
    v.iter().collect()
}

/// The characters `s[from..to]`, copied out.
pub(crate) fn sub_vec(s: &Vec<char>, from: usize, to: usize) -> (r: Vec<char>)
    requires
        from <= to <= s.len(),
    ensures
        r@ == s@.subrange(from as int, to as int),
{
    let mut r: Vec<char> = Vec::new();
    let mut i: usize = from;
    while i < to
        invariant
            from <= i <= to <= s.len(),
            r@ == s@.subrange(from as int, i as int),
        decreases to - i,
    {
        r.push(s[i]);
        proof {
            assert(r@ =~= s@.subrange(from as int, i + 1));
        }
        i = i + 1;
    }
    r
}

/// True when `pat` stands in `s` at position `i`.
pub(crate) fn matches_at(s: &Vec<char>, pat: &Vec<char>, i: usize) -> (b: bool)
    requires
        i + pat.len() <= s.len(),
    ensures
        b == (s@.subrange(i as int, i as int + pat@.len() as int) == pat@),
{
    let ghost w = s@.subrange(i as int, i as int + pat@.len() as int);
    let mut k: usize = 0;
    while k < pat.len()
        invariant
            k <= pat.len(),
            i + pat.len() <= s.len(),
            w == s@.subrange(i as int, i as int + pat@.len() as int),
            forall|j: int| 0 <= j < k ==> s@[i + j] == pat@[j],
        decreases pat.len() - k,
    {
        if s[i + k] != pat[k] {
            proof {
                assert(w[k as int] != pat@[k as int]);
            }
            return false;
        }
        k = k + 1;
    }
    proof {
        assert(w =~= pat@);
    }
    true
}

fn replace_chars(s: &Vec<char>, pat: &Vec<char>, rep: &Vec<char>) -> (r: Vec<char>)
    requires
        pat.len() >= 1,
    ensures
        r@ == spec_replace(s@, pat@, rep@),
{
    let mut out: Vec<char> = Vec::new();
    let mut i: usize = 0;
    proof {
        assert(s@.skip(0) =~= s@);
        assert(Seq::<char>::empty() + spec_replace(s@, pat@, rep@) =~= spec_replace(
            s@,
            pat@,
            rep@,
        ));
    }
    while pat.len() <= s.len() && i <= s.len() - pat.len()
        invariant
            pat.len() >= 1,
            i <= s.len(),
            spec_replace(s@, pat@, rep@) == out@ + spec_replace(s@.skip(i as int), pat@, rep@),
        decreases s.len() - i,
    {
        let ghost rem = s@.skip(i as int);
        if matches_at(s, pat, i) {
            proof {
                assert(rem.take(pat@.len() as int) =~= s@.subrange(
                    i as int,
                    i as int + pat@.len() as int,
                ));
                assert(rem.skip(pat@.len() as int) =~= s@.skip(i as int + pat@.len() as int));
            }
            let mut k: usize = 0;
            let ghost out0 = out@;
            while k < rep.len()
                invariant
                    k <= rep.len(),
                    out@ == out0 + rep@.take(k as int),
                decreases rep.len() - k,
            {
                out.push(rep[k]);
                proof {
                    assert(out@ =~= out0 + rep@.take(k + 1));
                }
                k = k + 1;
            }
            proof {
                assert(out0 + rep@.take(rep@.len() as int) =~= out0 + rep@);
                assert((out0 + rep@) + spec_replace(s@.skip(i as int + pat@.len() as int), pat@, rep@)
                    =~= out0 + (rep@ + spec_replace(s@.skip(i as int + pat@.len() as int), pat@, rep@)));
            }
            i = i + pat.len();
        } else {
            proof {
                assert(rem.take(pat@.len() as int) =~= s@.subrange(
                    i as int,
                    i as int + pat@.len() as int,
                ));
                assert(rem.drop_first() =~= s@.skip(i + 1));
                assert(rem[0] == s@[i as int]);
            }
            let ghost out0 = out@;
            out.push(s[i]);
            proof {
                assert(out@ =~= out0 + seq![s@[i as int]]);
                assert((out0 + seq![s@[i as int]]) + spec_replace(s@.skip(i + 1), pat@, rep@)
                    =~= out0 + (seq![s@[i as int]] + spec_replace(s@.skip(i + 1), pat@, rep@)));
            }
            i = i + 1;
        }
    }
    let ghost tail = s@.skip(i as int);
    proof {
        assert(tail.len() < pat@.len());
        assert(spec_replace(tail, pat@, rep@) == tail);
    }
    let mut j: usize = i;
    let ghost out1 = out@;
    while j < s.len()
        invariant
            i <= j <= s.len(),
            out@ == out1 + s@.subrange(i as int, j as int),
        decreases s.len() - j,
    {
        out.push(s[j]);
        proof {
            assert(out@ =~= out1 + s@.subrange(i as int, j + 1));
        }
        j = j + 1;
    }
    proof {
        assert(s@.subrange(i as int, s@.len() as int) =~= tail);
        assert(out1 + tail =~= spec_replace(s@, pat@, rep@));
    }
    out
}

pub proof fn lemma_first_occ_found(s: Seq<char>, c: char, i: int)
    requires
        0 <= i < s.len(),
        forall|j: int| 0 <= j < i ==> s[j] != c,
        s[i] == c,
    ensures
        first_occ(s, c) == i,
    decreases i,
{
    if i > 0 {
        lemma_first_occ_found(s.drop_first(), c, i - 1);
    }
}

pub proof fn lemma_first_occ_none(s: Seq<char>, c: char)
    requires
        forall|j: int| 0 <= j < s.len() ==> s[j] != c,
    ensures
        first_occ(s, c) < 0,
    decreases s.len(),
{
    if s.len() > 0 {
        lemma_first_occ_none(s.drop_first(), c);
    }
}

proof fn lemma_digits_val_nonneg(s: Seq<char>)
    requires
        all_digits(s),
    ensures
        digits_val(s) >= 0,
    decreases s.len(),
{
    if s.len() > 0 {
        assert(all_digits(s.drop_last()));
        lemma_digits_val_nonneg(s.drop_last());
    }
}

proof fn lemma_digits_val_step(s: Seq<char>, k: int)
    requires
        0 <= k < s.len(),
    ensures
        digits_val(s.take(k + 1)) == 10 * digits_val(s.take(k)) + digit_val(s[k]),
{
    assert(s.take(k + 1).drop_last() =~= s.take(k));
    assert(s.take(k + 1).last() == s[k]);
}

proof fn lemma_digits_val_take_mono(s: Seq<char>, k: int)
    requires
        all_digits(s),
        0 <= k <= s.len(),
    ensures
        digits_val(s.take(k)) <= digits_val(s),
    decreases s.len() - k,
{
    if k == s.len() {
        assert(s.take(k) =~= s);
    } else {
        lemma_digits_val_step(s, k);
        assert(all_digits(s.take(k)));
        lemma_digits_val_nonneg(s.take(k));
        lemma_digits_val_take_mono(s, k + 1);
    }
}

/// Reads the digits `w[from..to]` into an accumulator that already holds
/// the value of `pre`. Gives up (`None`) as soon as the value passes
/// `0x8000000000000000`, the largest mantissa magnitude a decimal can hold.
fn accumulate_digits(
    w: &Vec<char>,
    from: usize,
    to: usize,
    acc0: u128,
    Ghost(pre): Ghost<Seq<char>>,
) -> (r: Option<u128>)
    requires
        from <= to <= w.len(),
        forall|j: int| from <= j < to ==> is_digit(w@[j]),
        all_digits(pre),
        acc0 == digits_val(pre),
        acc0 <= 0x8000000000000000,
    ensures
        r matches Some(acc) ==> acc == digits_val(pre + w@.subrange(from as int, to as int))
            && acc <= 0x8000000000000000,
        r is None ==> digits_val(pre + w@.subrange(from as int, to as int))
            > 0x8000000000000000,
{
    let ghost full = pre + w@.subrange(from as int, to as int);
    proof {
        assert(all_digits(full));
        assert(full.take(pre.len() as int) =~= pre);
    }
    let mut acc: u128 = acc0;
    let mut j: usize = from;
    while j < to
        invariant
            from <= j <= to <= w.len(),
            forall|t: int| from <= t < to ==> is_digit(w@[t]),
            all_digits(full),
            full == pre + w@.subrange(from as int, to as int),
            full.len() == pre.len() + to - from,
            acc == digits_val(full.take(pre.len() + j - from)),
            acc <= 0x8000000000000000,
        decreases to - j,
    {
        let ghost k = pre.len() + j - from;
        proof {
            assert(full[k] == w@[j as int]);
            lemma_digits_val_step(full, k);
        }
        let d = (w[j] as u32 - 48) as u128;
        acc = acc * 10 + d;
        if acc > 0x8000000000000000 {
            proof {
                lemma_digits_val_take_mono(full, k + 1);
            }
            return None;
        }
        j = j + 1;
    }
    proof {
        assert(full.take(pre.len() + to - from) =~= full);
    }
    Some(acc)
}

/// Parses a normalized literal: an optional sign, digits, at most one dot.
#[verifier::rlimit(100)]
pub fn parse_dec_chars(u: &Vec<char>) -> (r: Option<Decimal>)
    ensures
        r == spec_parse_dec(u@),
        r matches Some(d) ==> d.wf(),
{
    let ghost sneg = u@.len() > 0 && u@[0] == '-';
    let neg: bool;
    let start: usize;
    if u.len() > 0 && (u[0] == '-' || u[0] == '+') {
        neg = u[0] == '-';
        start = 1;
    } else {
        neg = false;
        start = 0;
    }
    let ghost uu = if u@.len() > 0 && (u@[0] == '-' || u@[0] == '+') {
        u@.drop_first()
    } else {
        u@
    };
    let mut w: Vec<char> = Vec::new();
    let mut i: usize = start;
    while i < u.len()
        invariant
            start <= i <= u.len(),
            w@ == u@.subrange(start as int, i as int),
        decreases u.len() - i,
    {
        let c = u[i];
        w.push(c);
        proof {
            assert(w@ =~= u@.subrange(start as int, i + 1));
        }
        i = i + 1;
    }
    proof {
        assert(w@ =~= uu);
    }
    // locate the first dot
    let mut dj: usize = 0;
    while dj < w.len() && w[dj] != '.'
        invariant
            dj <= w.len(),
            w@ == uu,
            forall|t: int| 0 <= t < dj ==> w@[t] != '.',
        decreases w.len() - dj,
    {
        dj = dj + 1;
    }
    if dj == w.len() {
        // no dot: the whole string must be digits
        proof {
            lemma_first_occ_none(uu, '.');
        }
        if w.len() == 0 {
            return None;
        }
        let mut k: usize = 0;
        while k < w.len() && ch_is_digit(w[k])
            invariant
                k <= w.len(),
                w@ == uu,
                forall|t: int| 0 <= t < k ==> is_digit(w@[t]),
            decreases w.len() - k,
        {
            k = k + 1;
        }
        if k < w.len() {
            proof {
                assert(!is_digit(uu[k as int]));
            }
            return None;
        }
        proof {
            assert(all_digits(uu));
            assert(Seq::<char>::empty() + w@.subrange(0, w@.len() as int) =~= uu);
        }
        match accumulate_digits(&w, 0, w.len(), 0, Ghost(Seq::<char>::empty())) {
            None => {
                proof {
                    lemma_digits_val_nonneg(uu);
                }
                None
            },
            Some(acc) => finish_dec(neg, acc, 0, Ghost(u@), Ghost(uu), Ghost(uu), Ghost(0nat)),
        }
    } else {
        // dot at dj
        proof {
            lemma_first_occ_found(uu, '.', dj as int);
        }
        let ghost ip = uu.take(dj as int);
        let ghost fpfull = uu.skip(dj as int + 1);
        if w.len() < 2 {
            // just "." : no digit at all
            proof {
                assert(ip.len() + fpfull.len() == 0);
            }
            return None;
        }
        // every character but the dot must be a digit
        let mut k: usize = 0;
        while k < w.len() && (k == dj || ch_is_digit(w[k]))
            invariant
                k <= w.len(),
                w@ == uu,
                dj < w.len(),
                forall|t: int| 0 <= t < k && t != dj ==> is_digit(w@[t]),
            decreases w.len() - k,
        {
            k = k + 1;
        }
        if k < w.len() {
            proof {
                if (k as int) < dj {
                    assert(ip[k as int] == uu[k as int]);
                    assert(!all_digits(ip));
                } else {
                    assert(fpfull[k - dj - 1] == uu[k as int]);
                    assert(!all_digits(fpfull));
                }
            }
            return None;
        }
        proof {
            assert(forall|t: int| 0 <= t < ip.len() ==> ip[t] == uu[t]);
            assert(all_digits(ip));
            assert(forall|t: int| 0 <= t < fpfull.len() ==> fpfull[t] == uu[t + dj + 1]);
            assert(all_digits(fpfull));
        }
        let fplen_full = w.len() - dj - 1;
        let fplen: usize = if fplen_full > 18 { 18 } else { fplen_full };
        let ghost fp = if fpfull.len() > MAX_SCALE { fpfull.take(MAX_SCALE as int) } else { fpfull };
        let ghost ds = ip + fp;
        proof {
            assert(fp =~= uu.subrange(dj + 1, dj + 1 + fplen as int));
            assert(ip =~= uu.subrange(0, dj as int));
            assert(all_digits(ds));
        }
        match accumulate_digits(&w, 0, dj, 0, Ghost(Seq::<char>::empty())) {
            None => {
                proof {
                    assert(Seq::<char>::empty() + w@.subrange(0, dj as int) =~= ip);
                    assert(ds.take(ip.len() as int) =~= ip);
                    lemma_digits_val_take_mono(ds, ip.len() as int);
                    lemma_digits_val_nonneg(ds);
                }
                None
            },
            Some(acc1) => {
                proof {
                    assert(Seq::<char>::empty() + w@.subrange(0, dj as int) =~= ip);
                }
                match accumulate_digits(&w, dj + 1, dj + 1 + fplen, acc1, Ghost(ip)) {
                    None => {
                        proof {
                            assert(ip + w@.subrange(dj + 1, dj + 1 + fplen as int) =~= ds);
                            lemma_digits_val_nonneg(ds);
                        }
                        None
                    },
                    Some(acc) => {
                        proof {
                            assert(ip + w@.subrange(dj + 1, dj + 1 + fplen as int) =~= ds);
                        }
                        finish_dec(neg, acc, fplen as u32, Ghost(u@), Ghost(uu), Ghost(ds),
                            Ghost(fp.len()))
                    },
                }
            },
        }
    }
}

/// Applies the sign and range check to an accumulated magnitude.
fn finish_dec(
    neg: bool,
    acc: u128,
    scale: u32,
    Ghost(orig): Ghost<Seq<char>>,
    Ghost(uu): Ghost<Seq<char>>,
    Ghost(ds): Ghost<Seq<char>>,
    Ghost(sc): Ghost<nat>,
) -> (r: Option<Decimal>)
    requires
        acc <= 0x8000000000000000,
        acc == digits_val(ds),
        scale == sc,
        scale <= MAX_SCALE,
        neg == (orig.len() > 0 && orig[0] == '-'),
        uu == (if orig.len() > 0 && (orig[0] == '-' || orig[0] == '+') {
            orig.drop_first()
        } else {
            orig
        }),
        unsigned_digits(uu) == Some((ds, sc)),
    ensures
        r == spec_parse_dec(orig),
        r matches Some(d) ==> d.wf(),
{
    if neg {
        let m128: i128 = -(acc as i128);
        let m: i64 = m128 as i64;
        Some(Decimal { mantissa: m, scale })
    } else {
        if acc > 0x7fffffffffffffff {
            return None;
        }
        let m: i64 = acc as i64;
        Some(Decimal { mantissa: m, scale })
    }
}

/// Parses a provider-formatted value string, per the normalization rules:
/// trim, strip `" °C"` then `"°C"`, comma to dot, then read a decimal.
/// A string that does not normalize to a decimal yields no reading.
pub fn parse_temperature(s: &str) -> (r: Option<Decimal>)
    ensures
        r == spec_parse_temperature(s@),
        r matches Some(d) ==> d.wf(),
{
    let cs = str_to_chars(s);
    let mut p1: Vec<char> = Vec::new();
    p1.push(' ');
    p1.push('\u{00b0}');
    p1.push('C');
    let mut p2: Vec<char> = Vec::new();
    p2.push('\u{00b0}');
    p2.push('C');
    let mut pc: Vec<char> = Vec::new();
    pc.push(',');
    let mut pd: Vec<char> = Vec::new();
    pd.push('.');
    let empty: Vec<char> = Vec::new();
    proof {
        assert(p1@ =~= pat_unit_spaced());
        assert(p2@ =~= pat_unit());
        assert(pc@ =~= seq![',']);
        assert(pd@ =~= seq!['.']);
        assert(empty@ =~= Seq::<char>::empty());
    }
    let t1 = replace_chars(&cs, &p1, &empty);
    let t2 = replace_chars(&t1, &p2, &empty);
    let t3 = replace_chars(&t2, &pc, &pd);
    let t4 = trim_chars(&t3);
    parse_dec_chars(&t4)
}

proof fn lemma_replace_absent(s: Seq<char>, pat: Seq<char>, rep: Seq<char>)
    requires
        pat.len() >= 1,
        forall|i: int| 0 <= i < s.len() ==> s[i] != pat[0],
    ensures
        spec_replace(s, pat, rep) == s,
    decreases s.len(),
{
    if s.len() < pat.len() {
    } else if s.take(pat.len() as int) == pat {
        assert(s.take(pat.len() as int)[0] == s[0]);
        assert(false);
    } else {
        lemma_replace_absent(s.drop_first(), pat, rep);
        assert(seq![s[0]] + s.drop_first() =~= s);
    }
}

pub proof fn lemma_first_occ_props(s: Seq<char>, c: char)
    ensures
        -1 <= first_occ(s, c) < s.len(),
        first_occ(s, c) >= 0 ==> s[first_occ(s, c)] == c,
    decreases s.len(),
{
    if s.len() > 0 && s[0] != c {
        lemma_first_occ_props(s.drop_first(), c);
    }
}

/// A character that can stand in a decimal literal.
pub open spec fn is_literal_char(c: char) -> bool {
    is_digit(c) || c == '.' || c == '-' || c == '+'
}

proof fn lemma_parse_dec_chars_plain(s: Seq<char>)
    requires
        spec_parse_dec(s) is Some,
    ensures
        s.len() >= 1,
        forall|i: int| 0 <= i < s.len() ==> is_literal_char(#[trigger] s[i]),
{
    let u = if s.len() > 0 && (s[0] == '-' || s[0] == '+') { s.drop_first() } else { s };
    let d = first_dot(u);
    lemma_first_occ_props(u, '.');
    if d < 0 {
        assert(all_digits(u));
        assert forall|i: int| 0 <= i < s.len() implies is_literal_char(s[i]) by {
            if s.len() > 0 && (s[0] == '-' || s[0] == '+') {
                if i > 0 {
                    assert(s[i] == u[i - 1]);
                }
            } else {
                assert(s[i] == u[i]);
            }
        }
    } else {
        let ip = u.take(d);
        let fpfull = u.skip(d + 1);
        assert(all_digits(ip) && all_digits(fpfull));
        assert forall|i: int| 0 <= i < u.len() implies is_literal_char(u[i]) by {
            if i < d {
                assert(u[i] == ip[i]);
            } else if i > d {
                assert(u[i] == fpfull[i - d - 1]);
            }
        }
        assert forall|i: int| 0 <= i < s.len() implies is_literal_char(s[i]) by {
            if s.len() > 0 && (s[0] == '-' || s[0] == '+') {
                if i > 0 {
                    assert(s[i] == u[i - 1]);
                }
            } else {
                assert(s[i] == u[i]);
            }
        }
    }
}

/// Law: value normalization is idempotent — a string that is already a
/// normalized numeric literal is left unchanged by normalization, so
/// normalizing it again cannot change what it parses to.
pub proof fn lemma_normalize_idempotent(s: Seq<char>)
    requires
        spec_parse_dec(s) is Some,
    ensures
        spec_normalize(s) == s,
        spec_parse_temperature(s) == spec_parse_dec(s),
{
    lemma_parse_dec_chars_plain(s);
    assert(!is_space(s[0]));
    assert(!is_space(s[s.len() - 1]));
    assert(spec_trim(s) == s);
    assert(forall|i: int| 0 <= i < s.len() ==> s[i] != pat_unit_spaced()[0]);
    lemma_replace_absent(s, pat_unit_spaced(), Seq::<char>::empty());
    assert(forall|i: int| 0 <= i < s.len() ==> s[i] != pat_unit()[0]);
    lemma_replace_absent(s, pat_unit(), Seq::<char>::empty());
    assert(forall|i: int| 0 <= i < s.len() ==> s[i] != seq![','][0]);
    lemma_replace_absent(s, seq![','], seq!['.']);
}

} // verus!
