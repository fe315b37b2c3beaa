//! The threshold store and its persisted form.
//!
//! Three independent limits — cpu, gpu, overall — with fixed defaults.
//! A `set` overwrites exactly the fields it is given and leaves the rest
//! alone. The triple is persisted as a flat JSON object with the three
//! numeric fields; `encode` prints that object and `decode` reads it back,
//! and a saved triple always reads back exactly as it was.

use vstd::prelude::*;
use vstd::arithmetic::div_mod::{lemma_fundamental_div_mod, lemma_mod_division_less_than_divisor};
use crate::decimal::{Decimal, MAX_SCALE, pow10};
use crate::parse::{
    spec_parse_dec, parse_dec_chars, first_occ, lemma_first_occ_found, lemma_first_occ_none,
    str_to_chars, matches_at, is_digit, digit_val, digits_val, all_digits, is_literal_char,
    unsigned_digits, chars_to_string, sub_vec,
};
use crate::json::{skip_ws, parse_string, skip_value};

verus! {

/// The three temperature limits, in degrees, as exact decimals.
#[derive(Clone, Copy, Debug, PartialEq, Eq, Structural)]
pub struct Thresholds {
    pub cpu_temp_threshold: Decimal,
    pub gpu_temp_threshold: Decimal,
    pub overall_temp_threshold: Decimal,
}

/// The defaults used when nothing was persisted: cpu 75.0, gpu 80.0,
/// overall 85.0.
pub open spec fn spec_defaults() -> Thresholds {
    Thresholds {
        cpu_temp_threshold: Decimal { mantissa: 750, scale: 1 },
        gpu_temp_threshold: Decimal { mantissa: 800, scale: 1 },
        overall_temp_threshold: Decimal { mantissa: 850, scale: 1 },
    }
}

impl Thresholds {
    pub open spec fn wf(self) -> bool {
        self.cpu_temp_threshold.wf() && self.gpu_temp_threshold.wf()
            && self.overall_temp_threshold.wf()
    }

    /// The default limits.
    pub fn new() -> (r: Thresholds)
        ensures
            r == spec_defaults(),
            r.wf(),
    {
        Thresholds {
            cpu_temp_threshold: Decimal { mantissa: 750, scale: 1 },
            gpu_temp_threshold: Decimal { mantissa: 800, scale: 1 },
            overall_temp_threshold: Decimal { mantissa: 850, scale: 1 },
        }
    }

    /// A snapshot of the three limits, in the order cpu, gpu, overall.
    pub fn get(&self) -> (r: (Decimal, Decimal, Decimal))
        ensures
            r.0 == self.cpu_temp_threshold,
            r.1 == self.gpu_temp_threshold,
            r.2 == self.overall_temp_threshold,
    {
        (self.cpu_temp_threshold, self.gpu_temp_threshold, self.overall_temp_threshold)
    }

    /// Overwrites exactly the limits that are given; a field passed `None`
    /// keeps its value.
    pub fn set(
        &mut self,
        new_cpu: Option<Decimal>,
        new_gpu: Option<Decimal>,
        new_overall: Option<Decimal>,
    )
        requires
            old(self).wf(),
            new_cpu matches Some(d) ==> d.wf(),
            new_gpu matches Some(d) ==> d.wf(),
            new_overall matches Some(d) ==> d.wf(),
        ensures
            final(self).cpu_temp_threshold == (match new_cpu {
                Some(d) => d,
                None => old(self).cpu_temp_threshold,
            }),
            final(self).gpu_temp_threshold == (match new_gpu {
                Some(d) => d,
                None => old(self).gpu_temp_threshold,
            }),
            final(self).overall_temp_threshold == (match new_overall {
                Some(d) => d,
                None => old(self).overall_temp_threshold,
            }),
            final(self).wf(),
    {
        if let Some(c) = new_cpu {
            self.cpu_temp_threshold = c;
        }
        if let Some(g) = new_gpu {
            self.gpu_temp_threshold = g;
        }
        if let Some(o) = new_overall {
            self.overall_temp_threshold = o;
        }
    }
}

/// The digit character for a value below ten.
pub open spec fn digit_char(d: nat) -> char {
    if d == 0 {
        '0'
    } else if d == 1 {
        '1'
    } else if d == 2 {
        '2'
    } else if d == 3 {
        '3'
    } else if d == 4 {
        '4'
    } else if d == 5 {
        '5'
    } else if d == 6 {
        '6'
    } else if d == 7 {
        '7'
    } else if d == 8 {
        '8'
    } else {
        '9'
    }
}

fn digit_to_char(v: u64) -> (c: char)
    requires
        v < 10,
    ensures
        c == digit_char(v as nat),
        is_digit(c),
        digit_val(c) == v,
{
    if v == 0 {
        '0'
    } else if v == 1 {
        '1'
    } else if v == 2 {
        '2'
    } else if v == 3 {
        '3'
    } else if v == 4 {
        '4'
    } else if v == 5 {
        '5'
    } else if v == 6 {
        '6'
    } else if v == 7 {
        '7'
    } else if v == 8 {
        '8'
    } else {
        '9'
    }
}

/// The decimal digits of `n`, most significant first; `0` is `"0"`.
pub open spec fn digits_of(n: nat) -> Seq<char>
    decreases n,
{
    if n < 10 {
        seq![digit_char(n)]
    } else {
        digits_of(n / 10).push(digit_char(n % 10))
    }
}

/// `k` zero characters.
pub open spec fn zeros(k: nat) -> Seq<char>
    decreases k,
{
    if k == 0 {
        Seq::<char>::empty()
    } else {
        seq!['0'] + zeros((k - 1) as nat)
    }
}

/// `ds` left-padded with zeros to `scale` characters.
pub open spec fn pad_zeros(scale: nat, ds: Seq<char>) -> Seq<char> {
    if ds.len() <= scale {
        zeros((scale - ds.len()) as nat) + ds
    } else {
        ds
    }
}

/// The canonical printed form of a decimal: sign, integer digits, and —
/// when the scale is positive — a dot and exactly `scale` fraction digits.
pub open spec fn dec_repr(d: Decimal) -> Seq<char> {
    let mag = if d.mantissa < 0 { -(d.mantissa as int) } else { d.mantissa as int };
    let p = pow10(d.scale as nat);
    let ip = mag / p;
    let fp = mag % p;
    let sign = if d.mantissa < 0 { seq!['-'] } else { Seq::<char>::empty() };
    let frac = if d.scale == 0 {
        Seq::<char>::empty()
    } else {
        seq!['.'] + pad_zeros(d.scale as nat, digits_of(fp as nat))
    };
    sign + digits_of(ip as nat) + frac
}

/// The object opener and the cpu field name.
pub open spec fn lit_head() -> Seq<char> {
    "{\"cpu_temp_threshold\":"@
}

/// The separator before the gpu field.
pub open spec fn lit_gpu() -> Seq<char> {
    ",\"gpu_temp_threshold\":"@
}

/// The separator before the overall field.
pub open spec fn lit_overall() -> Seq<char> {
    ",\"overall_temp_threshold\":"@
}

/// The persisted form: one flat JSON object holding the three limits.
pub open spec fn spec_encode_thresholds(t: Thresholds) -> Seq<char> {
    lit_head() + dec_repr(t.cpu_temp_threshold) + lit_gpu() + dec_repr(t.gpu_temp_threshold)
        + lit_overall() + dec_repr(t.overall_temp_threshold) + seq!['}']
}

/// `p` is a prefix of `s`.
pub open spec fn starts_with(s: Seq<char>, p: Seq<char>) -> bool {
    p.len() <= s.len() && s.take(p.len() as int) == p
}

/// Recognizes the canonical persisted form — the exact text `encode`
/// prints: the three field names in their fixed order, each followed by
/// a decimal literal, and nothing after the closing brace. The general
/// reader of `decode_thresholds` accepts more spellings; this spec is
/// what the round-trip law is stated over.
pub open spec fn spec_decode_canonical(s: Seq<char>) -> Option<Thresholds> {
    if !starts_with(s, lit_head()) {
        None
    } else {
        let a = s.skip(lit_head().len() as int);
        let i1 = first_occ(a, ',');
        if i1 < 0 {
            None
        } else {
            match spec_parse_dec(a.take(i1)) {
                None => None,
                Some(cpu) => {
                    let b = a.skip(i1);
                    if !starts_with(b, lit_gpu()) {
                        None
                    } else {
                        let cc = b.skip(lit_gpu().len() as int);
                        let i2 = first_occ(cc, ',');
                        if i2 < 0 {
                            None
                        } else {
                            match spec_parse_dec(cc.take(i2)) {
                                None => None,
                                Some(gpu) => {
                                    let e0 = cc.skip(i2);
                                    if !starts_with(e0, lit_overall()) {
                                        None
                                    } else {
                                        let e = e0.skip(lit_overall().len() as int);
                                        let i3 = first_occ(e, '}');
                                        if i3 < 0 || i3 != e.len() - 1 {
                                            None
                                        } else {
                                            match spec_parse_dec(e.take(i3)) {
                                                None => None,
                                                Some(overall) => Some(
                                                    Thresholds {
                                                        cpu_temp_threshold: cpu,
                                                        gpu_temp_threshold: gpu,
                                                        overall_temp_threshold: overall,
                                                    },
                                                ),
                                            }
                                        }
                                    }
                                }
                            }
                        }
                    }
                }
            }
        }
    }
}

proof fn lemma_digits_of_props(n: nat)
    ensures
        all_digits(digits_of(n)),
        digits_val(digits_of(n)) == n,
        digits_of(n).len() >= 1,
    decreases n,
{
    if n < 10 {
        assert(is_digit(digit_char(n)) && digit_val(digit_char(n)) == n);
        assert(seq![digit_char(n)].len() == 1);
        assert(seq![digit_char(n)].drop_last() =~= Seq::<char>::empty());
        assert(seq![digit_char(n)].last() == digit_char(n));
        assert(digits_val(Seq::<char>::empty()) == 0);
        assert(digits_val(seq![digit_char(n)]) == 10 * digits_val(
            seq![digit_char(n)].drop_last(),
        ) + digit_val(seq![digit_char(n)].last()));
    } else {
        lemma_digits_of_props(n / 10);
        let s = digits_of(n / 10).push(digit_char(n % 10));
        assert(s.drop_last() =~= digits_of(n / 10));
        assert(s.last() == digit_char(n % 10));
        assert(is_digit(digit_char(n % 10)) && digit_val(digit_char(n % 10)) == n % 10);
        lemma_fundamental_div_mod(n as int, 10);
        assert forall|i: int| 0 <= i < s.len() implies is_digit(s[i]) by {
            if i < s.len() - 1 {
                assert(s[i] == digits_of(n / 10)[i]);
            }
        }
    }
}

proof fn lemma_digits_val_concat(a: Seq<char>, b: Seq<char>)
    ensures
        digits_val(a + b) == digits_val(a) * pow10(b.len()) + digits_val(b),
    decreases b.len(),
{
    if b.len() == 0 {
        assert(a + b =~= a);
        assert(digits_val(b) == 0);
        assert(pow10(0) == 1);
    } else {
        lemma_digits_val_concat(a, b.drop_last());
        assert((a + b).drop_last() =~= a + b.drop_last());
        assert((a + b).last() == b.last());
        let va = digits_val(a);
        let p1 = pow10((b.len() - 1) as nat);
        assert(pow10(b.len()) == 10 * p1);
        assert((a + b).len() > 0);
        assert(digits_val(a + b) == 10 * digits_val((a + b).drop_last()) + digit_val(
            (a + b).last(),
        ));
        assert(digits_val(b) == 10 * digits_val(b.drop_last()) + digit_val(b.last()));
        assert(digits_val(a + b.drop_last()) == va * p1 + digits_val(b.drop_last()));
        assert(10 * (va * p1 + digits_val(b.drop_last())) + digit_val(b.last()) == va * (10 * p1)
            + (10 * digits_val(b.drop_last()) + digit_val(b.last()))) by (nonlinear_arith);
        assert(digits_val(a + b) == va * pow10(b.len()) + digits_val(b));
    }
}

proof fn lemma_zeros_props(k: nat)
    ensures
        zeros(k).len() == k,
        all_digits(zeros(k)),
        digits_val(zeros(k)) == 0,
    decreases k,
{
    if k > 0 {
        lemma_zeros_props((k - 1) as nat);
        lemma_digits_val_concat(seq!['0'], zeros((k - 1) as nat));
        assert(seq!['0'].len() == 1);
        assert(seq!['0'].drop_last() =~= Seq::<char>::empty());
        assert(seq!['0'].last() == '0');
        assert(digit_val('0') == 0);
        assert(digits_val(Seq::<char>::empty()) == 0);
        assert(digits_val(seq!['0']) == 10 * digits_val(seq!['0'].drop_last()) + digit_val(
            seq!['0'].last(),
        ));
        assert(digits_val(seq!['0']) == 0);
        assert(zeros(k) == seq!['0'] + zeros((k - 1) as nat));
        assert(digits_val(seq!['0'] + zeros((k - 1) as nat)) == digits_val(seq!['0']) * pow10(
            zeros((k - 1) as nat).len(),
        ) + digits_val(zeros((k - 1) as nat)));
        assert(digits_val(seq!['0']) * pow10(zeros((k - 1) as nat).len()) == 0)
            by (nonlinear_arith)
            requires
                digits_val(seq!['0']) == 0,
        ;
        assert forall|i: int| 0 <= i < zeros(k).len() implies is_digit(zeros(k)[i]) by {
            if i > 0 {
                assert(zeros(k)[i] == zeros((k - 1) as nat)[i - 1]);
            }
        }
    }
}

proof fn lemma_zeros_snoc(t: nat)
    ensures
        zeros(t) + seq!['0'] =~= zeros(t + 1),
    decreases t,
{
    if t == 0 {
        assert(zeros(1) =~= seq!['0'] + zeros(0));
        assert(Seq::<char>::empty() + seq!['0'] =~= seq!['0'] + Seq::<char>::empty());
    } else {
        lemma_zeros_snoc((t - 1) as nat);
        assert(zeros(t) + seq!['0'] =~= seq!['0'] + (zeros((t - 1) as nat) + seq!['0']));
        assert(seq!['0'] + zeros(t) =~= zeros(t + 1));
    }
}

proof fn lemma_digits_of_len_le(n: nat, k: nat)
    requires
        n < pow10(k),
        k >= 1,
    ensures
        digits_of(n).len() <= k,
    decreases n,
{
    if n >= 10 {
        if k == 1 {
            assert(pow10(1) == 10 * pow10(0));
            assert(false);
        }
        assert(pow10(k) == 10 * pow10((k - 1) as nat));
        lemma_fundamental_div_mod(n as int, 10);
        lemma_mod_division_less_than_divisor(n as int, 10);
        assert(10 * (n / 10) <= n);
        assert((n / 10) < pow10((k - 1) as nat));
        lemma_digits_of_len_le(n / 10, (k - 1) as nat);
    }
}

/// Every character of `s` could stand in a decimal literal.
spec fn all_literal(s: Seq<char>) -> bool {
    forall|i: int| 0 <= i < s.len() ==> is_literal_char(#[trigger] s[i])
}

proof fn lemma_all_literal_concat(a: Seq<char>, b: Seq<char>)
    requires
        all_literal(a),
        all_literal(b),
    ensures
        all_literal(a + b),
{
    assert forall|i: int| 0 <= i < (a + b).len() implies is_literal_char((a + b)[i]) by {
        if i < a.len() {
            assert((a + b)[i] == a[i]);
        } else {
            assert((a + b)[i] == b[i - a.len()]);
        }
    }
}

proof fn lemma_dec_repr(d: Decimal)
    requires
        d.wf(),
    ensures
        all_literal(dec_repr(d)),
        dec_repr(d).len() >= 1,
        spec_parse_dec(dec_repr(d)) == Some(d),
{
    let mag = if d.mantissa < 0 { -(d.mantissa as int) } else { d.mantissa as int };
    let p = pow10(d.scale as nat);
    crate::decimal::lemma_pow10_bounds(d.scale as nat);
    lemma_fundamental_div_mod(mag, p);
    lemma_mod_division_less_than_divisor(mag, p);
    let ip = mag / p;
    let fp = mag % p;
    assert(p * ip <= mag) by (nonlinear_arith)
        requires
            mag == p * ip + fp,
            fp >= 0,
    ;
    assert(ip >= 0) by (nonlinear_arith)
        requires
            mag == p * ip + fp,
            0 <= fp < p,
            p >= 1,
            mag >= 0,
    ;
    let di = digits_of(ip as nat);
    lemma_digits_of_props(ip as nat);
    let sign = if d.mantissa < 0 { seq!['-'] } else { Seq::<char>::empty() };
    let rep = dec_repr(d);
    if d.scale == 0 {
        // no dot, no fraction: the representation is sign + digits
        assert(fp == 0 && ip == mag);
        assert(rep =~= sign + di);
        let u = if rep.len() > 0 && (rep[0] == '-' || rep[0] == '+') {
            rep.drop_first()
        } else {
            rep
        };
        if d.mantissa < 0 {
            assert(rep[0] == '-');
            assert(u =~= di);
        } else {
            assert(rep[0] == di[0]);
            assert(!(rep[0] == '-' || rep[0] == '+'));
            assert(u =~= di);
        }
        lemma_first_occ_none(u, '.');
        assert(unsigned_digits(u) == Some((di, 0nat)));
        assert(all_literal(sign));
        lemma_all_literal_concat(sign, di);
        assert(spec_parse_dec(rep) == Some(d));
    } else {
        lemma_digits_of_len_le(fp as nat, d.scale as nat);
        let dfp = digits_of(fp as nat);
        lemma_digits_of_props(fp as nat);
        lemma_zeros_props((d.scale - dfp.len()) as nat);
        let padded = pad_zeros(d.scale as nat, dfp);
        assert(padded == zeros((d.scale - dfp.len()) as nat) + dfp);
        assert(padded.len() == d.scale);
        assert forall|i: int| 0 <= i < padded.len() implies is_digit(padded[i]) by {
            if i < (d.scale - dfp.len()) {
                assert(padded[i] == zeros((d.scale - dfp.len()) as nat)[i]);
            } else {
                assert(padded[i] == dfp[i - (d.scale - dfp.len())]);
            }
        }
        lemma_digits_val_concat(zeros((d.scale - dfp.len()) as nat), dfp);
        assert(digits_val(padded) == fp);
        let frac = seq!['.'] + padded;
        assert(rep =~= sign + di + frac);
        let u = if rep.len() > 0 && (rep[0] == '-' || rep[0] == '+') {
            rep.drop_first()
        } else {
            rep
        };
        if d.mantissa < 0 {
            assert(rep[0] == '-');
            assert(u =~= di + frac);
        } else {
            assert(rep[0] == di[0]);
            assert(!(rep[0] == '-' || rep[0] == '+'));
            assert(u =~= di + frac);
        }
        // the first dot stands right after the integer digits
        assert(u[di.len() as int] == '.');
        assert forall|j: int| 0 <= j < di.len() implies u[j] != '.' by {
            assert(u[j] == di[j]);
        }
        lemma_first_occ_found(u, '.', di.len() as int);
        assert(u.take(di.len() as int) =~= di);
        assert(u.skip(di.len() as int + 1) =~= padded);
        assert(!(padded.len() > MAX_SCALE));
        let ds = di + padded;
        assert(unsigned_digits(u) == Some((ds, padded.len())));
        lemma_digits_val_concat(di, padded);
        assert(digits_val(ds) == ip * p + fp);
        assert(ip * p == p * ip) by (nonlinear_arith);
        assert(digits_val(ds) == mag);
        assert(all_literal(seq!['.']) && all_literal(sign) && all_literal(di) && all_literal(
            padded,
        ));
        lemma_all_literal_concat(seq!['.'], padded);
        lemma_all_literal_concat(sign, di);
        lemma_all_literal_concat(sign + di, frac);
        assert(spec_parse_dec(rep) == Some(d));
    }
}

/// Law: the persisted form round-trips — decoding what `encode` printed
/// for a well-formed triple gives back exactly that triple.
#[verifier::rlimit(100)]
pub proof fn lemma_thresholds_round_trip(t: Thresholds)
    requires
        t.wf(),
    ensures
        spec_decode_canonical(spec_encode_thresholds(t)) == Some(t),
        spec_decode_thresholds(spec_encode_thresholds(t)) == Some(t),
{
    let r1 = dec_repr(t.cpu_temp_threshold);
    let r2 = dec_repr(t.gpu_temp_threshold);
    let r3 = dec_repr(t.overall_temp_threshold);
    lemma_dec_repr(t.cpu_temp_threshold);
    lemma_dec_repr(t.gpu_temp_threshold);
    lemma_dec_repr(t.overall_temp_threshold);
    let s = spec_encode_thresholds(t);
    reveal_strlit("{\"cpu_temp_threshold\":");
    reveal_strlit(",\"gpu_temp_threshold\":");
    reveal_strlit(",\"overall_temp_threshold\":");
    assert(lit_gpu()[0] == ',');
    assert(lit_overall()[0] == ',');
    assert(s.take(lit_head().len() as int) =~= lit_head());
    assert(starts_with(s, lit_head()));
    let a = s.skip(lit_head().len() as int);
    assert(a =~= r1 + (lit_gpu() + r2 + lit_overall() + r3 + seq!['}']));
    let tail1 = lit_gpu() + r2 + lit_overall() + r3 + seq!['}'];
    assert forall|j: int| 0 <= j < r1.len() implies a[j] != ',' by {
        assert(a[j] == r1[j]);
        assert(is_literal_char(r1[j]));
    }
    assert(a[r1.len() as int] == tail1[0]);
    assert(tail1[0] == lit_gpu()[0]);
    lemma_first_occ_found(a, ',', r1.len() as int);
    assert(a.take(r1.len() as int) =~= r1);
    let b = a.skip(r1.len() as int);
    assert(b =~= lit_gpu() + (r2 + lit_overall() + r3 + seq!['}']));
    assert(b.take(lit_gpu().len() as int) =~= lit_gpu());
    assert(starts_with(b, lit_gpu()));
    let cc = b.skip(lit_gpu().len() as int);
    assert(cc =~= r2 + (lit_overall() + r3 + seq!['}']));
    let tail2 = lit_overall() + r3 + seq!['}'];
    assert forall|j: int| 0 <= j < r2.len() implies cc[j] != ',' by {
        assert(cc[j] == r2[j]);
        assert(is_literal_char(r2[j]));
    }
    assert(cc[r2.len() as int] == tail2[0]);
    assert(tail2[0] == lit_overall()[0]);
    lemma_first_occ_found(cc, ',', r2.len() as int);
    assert(cc.take(r2.len() as int) =~= r2);
    let e0 = cc.skip(r2.len() as int);
    assert(e0 =~= lit_overall() + (r3 + seq!['}']));
    assert(e0.take(lit_overall().len() as int) =~= lit_overall());
    assert(starts_with(e0, lit_overall()));
    let e = e0.skip(lit_overall().len() as int);
    assert(e =~= r3 + seq!['}']);
    assert forall|j: int| 0 <= j < r3.len() implies e[j] != '}' by {
        assert(e[j] == r3[j]);
        assert(is_literal_char(r3[j]));
    }
    assert(e[r3.len() as int] == '}');
    lemma_first_occ_found(e, '}', r3.len() as int);
    assert(e.take(r3.len() as int) =~= r3);
    assert(first_occ(e, '}') == e.len() - 1);
}

fn push_all(out: &mut Vec<char>, s: &Vec<char>)
    ensures
        final(out)@ == old(out)@ + s@,
{
    let mut i: usize = 0;
    proof {
        assert(out@ =~= old(out)@ + s@.take(0));
    }
    while i < s.len()
        invariant
            i <= s.len(),
            out@ == old(out)@ + s@.take(i as int),
        decreases s.len() - i,
    {
        out.push(s[i]);
        proof {
            assert(old(out)@ + s@.take(i as int) + seq![s@[i as int]] =~= old(out)@ + s@.take(
                i + 1,
            ));
        }
        i = i + 1;
    }
    proof {
        assert(s@.take(s@.len() as int) =~= s@);
    }
}

fn count_digits(n: u64) -> (r: usize)
    ensures
        r == digits_of(n as nat).len(),
{
    proof {
        crate::decimal::lemma_pow10_bounds(18);
        assert(pow10(20) == 10 * pow10(19));
        assert(pow10(19) == 10 * pow10(18));
        lemma_digits_of_len_le(n as nat, 20);
    }
    let mut c: usize = 1;
    let mut m: u64 = n;
    while m >= 10
        invariant
            c >= 1,
            digits_of(n as nat).len() <= 20,
            digits_of(m as nat).len() >= 1,
            digits_of(n as nat).len() == digits_of(m as nat).len() + c - 1,
        decreases m,
    {
        m = m / 10;
        proof {
            lemma_digits_of_props(m as nat);
        }
        c = c + 1;
    }
    c
}

fn push_digits(out: &mut Vec<char>, n: u64)
    ensures
        final(out)@ == old(out)@ + digits_of(n as nat),
    decreases n,
{
    if n < 10 {
        let c = digit_to_char(n);
        out.push(c);
        proof {
            assert(old(out)@ + digits_of(n as nat) =~= out@);
        }
    } else {
        push_digits(out, n / 10);
        let c = digit_to_char(n % 10);
        out.push(c);
        proof {
            assert(old(out)@ + digits_of(n as nat) =~= out@);
        }
    }
}

/// Prints a decimal in its canonical form.
fn push_dec(out: &mut Vec<char>, d: &Decimal)
    requires
        d.wf(),
    ensures
        final(out)@ == old(out)@ + dec_repr(*d),
{
    let m = d.mantissa;
    let neg = m < 0;
    let mag: u64 = if m < 0 {
        (-(m as i128)) as u64
    } else {
        m as u64
    };
    if neg {
        out.push('-');
    }
    let p128 = crate::decimal::pow10_i128(d.scale);
    let p = p128 as u64;
    let ip = mag / p;
    let fp = mag % p;
    push_digits(out, ip);
    if d.scale > 0 {
        out.push('.');
        let k = count_digits(fp);
        proof {
            lemma_mod_division_less_than_divisor(mag as int, p as int);
            lemma_digits_of_len_le(fp as nat, d.scale as nat);
            lemma_zeros_props((d.scale - k) as nat);
        }
        let mut z: usize = k;
        while z < d.scale as usize
            invariant
                k <= z <= d.scale <= MAX_SCALE,
                k == digits_of(fp as nat).len(),
                out@ == old(out)@ + (if d.mantissa < 0 {
                    seq!['-']
                } else {
                    Seq::<char>::empty()
                }) + digits_of((mag / p) as nat) + seq!['.'] + zeros((z - k) as nat),
            decreases d.scale - z,
        {
            out.push('0');
            proof {
                lemma_zeros_props((z + 1 - k) as nat);
                lemma_zeros_snoc((z - k) as nat);
                assert(zeros((z + 1 - k) as nat) =~= zeros((z - k) as nat) + seq!['0']);
                assert(old(out)@ + (if d.mantissa < 0 {
                    seq!['-']
                } else {
                    Seq::<char>::empty()
                }) + digits_of((mag / p) as nat) + seq!['.'] + (zeros((z - k) as nat)
                    + seq!['0']) =~= out@);
            }
            z = z + 1;
        }
        push_digits(out, fp);
        proof {
            assert(pad_zeros(d.scale as nat, digits_of(fp as nat)) == zeros(
                (d.scale - k) as nat,
            ) + digits_of(fp as nat));
            assert(old(out)@ + dec_repr(*d) =~= out@);
        }
    } else {
        proof {
            assert(old(out)@ + dec_repr(*d) =~= out@);
        }
    }
}

impl Thresholds {
    /// The persisted form of the triple: a flat JSON object with the three
    /// numeric fields, exactly as `spec_encode_thresholds` lays it out.
    pub fn encode(&self) -> (r: String)
        requires
            self.wf(),
        ensures
            r@ == spec_encode_thresholds(*self),
    {
        let mut out: Vec<char> = Vec::new();
        let head = str_to_chars("{\"cpu_temp_threshold\":");
        let mid = str_to_chars(",\"gpu_temp_threshold\":");
        let last = str_to_chars(",\"overall_temp_threshold\":");
        push_all(&mut out, &head);
        push_dec(&mut out, &self.cpu_temp_threshold);
        push_all(&mut out, &mid);
        push_dec(&mut out, &self.gpu_temp_threshold);
        push_all(&mut out, &last);
        push_dec(&mut out, &self.overall_temp_threshold);
        out.push('}');
        proof {
            assert(out@ =~= spec_encode_thresholds(*self));
        }
        chars_to_string(&out)
    }
}

fn scan_for(s: &Vec<char>, from: usize, c: char) -> (r: Option<usize>)
    requires
        from <= s.len(),
    ensures
        r matches Some(j) ==> from <= j < s.len() && s@[j as int] == c && forall|t: int|
            from <= t < j ==> s@[t] != c,
        r is None ==> forall|t: int| from <= t < s.len() ==> s@[t] != c,
{
    let mut j: usize = from;
    while j < s.len()
        invariant
            from <= j <= s.len(),
            forall|t: int| from <= t < j ==> s@[t] != c,
        decreases s.len() - j,
    {
        if s[j] == c {
            return Some(j);
        }
        j = j + 1;
    }
    None
}

/// Recognizes the canonical persisted form exactly.
#[verifier::rlimit(100)]
fn decode_canonical(cs: &Vec<char>) -> (r: Option<Thresholds>)
    ensures
        r == spec_decode_canonical(cs@),
        r matches Some(t) ==> t.wf(),
{
    let head = str_to_chars("{\"cpu_temp_threshold\":");
    let mid = str_to_chars(",\"gpu_temp_threshold\":");
    let last = str_to_chars(",\"overall_temp_threshold\":");
    if head.len() > cs.len() || !matches_at(cs, &head, 0) {
        proof {
            assert(head.len() <= cs.len() ==> cs@.take(head@.len() as int) =~= cs@.subrange(
                0,
                head@.len() as int,
            ));
        }
        return None;
    }
    proof {
        assert(cs@.take(head@.len() as int) =~= cs@.subrange(0, head@.len() as int));
    }
    let pos1 = head.len();
    let ghost a = cs@.skip(pos1 as int);
    let j1 = match scan_for(cs, pos1, ',') {
        None => {
            proof {
                lemma_first_occ_none(a, ',');
            }
            return None;
        },
        Some(j) => j,
    };
    proof {
        assert(a[j1 - pos1] == ',');
        assert(forall|t: int| 0 <= t < j1 - pos1 ==> a[t] != ',');
        lemma_first_occ_found(a, ',', j1 - pos1);
        assert(a.take(j1 - pos1) =~= cs@.subrange(pos1 as int, j1 as int));
    }
    let n1 = sub_vec(cs, pos1, j1);
    let cpu = match parse_dec_chars(&n1) {
        None => {
            return None;
        },
        Some(d) => d,
    };
    let ghost b = a.skip(j1 - pos1);
    proof {
        assert(b =~= cs@.skip(j1 as int));
    }
    if mid.len() > cs.len() - j1 || !matches_at(cs, &mid, j1) {
        proof {
            assert(mid@.len() <= b.len() ==> b.take(mid@.len() as int) =~= cs@.subrange(
                j1 as int,
                j1 + mid@.len(),
            ));
        }
        return None;
    }
    proof {
        assert(b.take(mid@.len() as int) =~= cs@.subrange(j1 as int, j1 + mid@.len()));
    }
    let pos2 = j1 + mid.len();
    let ghost cc = b.skip(mid@.len() as int);
    proof {
        assert(cc =~= cs@.skip(pos2 as int));
    }
    let j2 = match scan_for(cs, pos2, ',') {
        None => {
            proof {
                lemma_first_occ_none(cc, ',');
            }
            return None;
        },
        Some(j) => j,
    };
    proof {
        assert(cc[j2 - pos2] == ',');
        assert(forall|t: int| 0 <= t < j2 - pos2 ==> cc[t] != ',');
        lemma_first_occ_found(cc, ',', j2 - pos2);
        assert(cc.take(j2 - pos2) =~= cs@.subrange(pos2 as int, j2 as int));
    }
    let n2 = sub_vec(cs, pos2, j2);
    let gpu = match parse_dec_chars(&n2) {
        None => {
            return None;
        },
        Some(d) => d,
    };
    let ghost e0 = cc.skip(j2 - pos2);
    proof {
        assert(e0 =~= cs@.skip(j2 as int));
    }
    if last.len() > cs.len() - j2 || !matches_at(cs, &last, j2) {
        proof {
            assert(last@.len() <= e0.len() ==> e0.take(last@.len() as int) =~= cs@.subrange(
                j2 as int,
                j2 + last@.len(),
            ));
        }
        return None;
    }
    proof {
        assert(e0.take(last@.len() as int) =~= cs@.subrange(j2 as int, j2 + last@.len()));
    }
    let pos3 = j2 + last.len();
    let ghost e = e0.skip(last@.len() as int);
    proof {
        assert(e =~= cs@.skip(pos3 as int));
    }
    let j3 = match scan_for(cs, pos3, '}') {
        None => {
            proof {
                lemma_first_occ_none(e, '}');
            }
            return None;
        },
        Some(j) => j,
    };
    proof {
        assert(e[j3 - pos3] == '}');
        assert(forall|t: int| 0 <= t < j3 - pos3 ==> e[t] != '}');
        lemma_first_occ_found(e, '}', j3 - pos3);
        assert(e.take(j3 - pos3) =~= cs@.subrange(pos3 as int, j3 as int));
    }
    if j3 != cs.len() - 1 {
        return None;
    }
    let n3 = sub_vec(cs, pos3, j3);
    let overall = match parse_dec_chars(&n3) {
        None => {
            return None;
        },
        Some(d) => d,
    };
    Some(Thresholds {
        cpu_temp_threshold: cpu,
        gpu_temp_threshold: gpu,
        overall_temp_threshold: overall,
    })
}

/// The member pairs of the general reader's spec: each key's content
/// with the raw characters of its value.
pub open spec fn pairs_view(ms: Seq<(String, Vec<char>)>) -> Seq<(Seq<char>, Seq<char>)>
    decreases ms.len(),
{
    if ms.len() == 0 {
        Seq::<(Seq<char>, Seq<char>)>::empty()
    } else {
        seq![(ms[0].0@, ms[0].1@)] + pairs_view(ms.drop_first())
    }
}

proof fn lemma_pairs_view_concat(a: Seq<(String, Vec<char>)>, b: Seq<(String, Vec<char>)>)
    ensures
        pairs_view(a + b) == pairs_view(a) + pairs_view(b),
    decreases a.len(),
{
    if a.len() == 0 {
        assert(a + b =~= b);
        assert(pairs_view(a) + pairs_view(b) =~= pairs_view(b));
    } else {
        lemma_pairs_view_concat(a.drop_first(), b);
        assert((a + b)[0] == a[0]);
        assert((a + b).drop_first() =~= a.drop_first() + b);
        assert(seq![(a[0].0@, a[0].1@)] + (pairs_view(a.drop_first()) + pairs_view(b)) =~= (
        seq![(a[0].0@, a[0].1@)] + pairs_view(a.drop_first())) + pairs_view(b));
    }
}

/// The member list from a key at `j` on, up to and past the closing
/// brace: each key with the raw span of its value, whatever its shape.
pub open spec fn spec_members(s: Seq<char>, j: int, fuel: nat) -> Option<
    (Seq<(Seq<char>, Seq<char>)>, int),
>
    decreases fuel, 2int,
{
    if fuel == 0 {
        None
    } else {
        match crate::json::spec_string(s, j) {
            None => None,
            Some(k) => {
                let jc = crate::json::spec_ws_end(s, k.1);
                if !(jc < s.len() && s[jc] == ':') {
                    None
                } else {
                    let jv = crate::json::spec_ws_end(s, jc + 1);
                    match crate::json::spec_skip_value(s, jv, (s.len() + 1) as nat) {
                        None => None,
                        Some(je) => {
                            let span = s.subrange(jv, je);
                            let ja = crate::json::spec_ws_end(s, je);
                            if ja < s.len() && s[ja] == ',' {
                                match spec_members(
                                    s,
                                    crate::json::spec_ws_end(s, ja + 1),
                                    (fuel - 1) as nat,
                                ) {
                                    None => None,
                                    Some(p) => Some((seq![(k.0, span)] + p.0, p.1)),
                                }
                            } else if ja < s.len() && s[ja] == '}' {
                                Some((seq![(k.0, span)], ja + 1))
                            } else {
                                None
                            }
                        },
                    }
                }
            },
        }
    }
}

/// One JSON object and nothing else around it: its members in document
/// order, tolerating whitespace and any value shape.
pub open spec fn spec_object_members(s: Seq<char>) -> Option<Seq<(Seq<char>, Seq<char>)>> {
    let j = crate::json::spec_ws_end(s, 0);
    if !(j < s.len() && s[j] == '{') {
        None
    } else {
        let j1 = crate::json::spec_ws_end(s, j + 1);
        if j1 < s.len() && s[j1] == '}' {
            if crate::json::spec_ws_end(s, j1 + 1) == s.len() {
                Some(Seq::<(Seq<char>, Seq<char>)>::empty())
            } else {
                None
            }
        } else {
            match spec_members(s, j1, (s.len() + 1) as nat) {
                None => None,
                Some(p) => if crate::json::spec_ws_end(s, p.1) == s.len() {
                    Some(p.0)
                } else {
                    None
                },
            }
        }
    }
}

fn members_rec(
    cs: &Vec<char>,
    j: usize,
    out: &mut Vec<(String, Vec<char>)>,
    Ghost(fuel): Ghost<nat>,
) -> (r: Option<usize>)
    requires
        j <= cs.len(),
        fuel >= cs.len() - j + 1,
    ensures
        match spec_members(cs@, j as int, fuel) {
            Some(p) => r matches Some(e) && e == p.1 && pairs_view(final(out)@) == pairs_view(
                old(out)@,
            ) + p.0,
            None => r is None,
        },
        r matches Some(e) ==> j < e <= cs.len(),
    decreases cs.len() - j,
{
    let (key, jk) = match parse_string(cs, j) {
        None => {
            return None;
        },
        Some(p) => p,
    };
    let jc = skip_ws(cs, jk);
    if !(jc < cs.len() && cs[jc] == ':') {
        return None;
    }
    let jv = skip_ws(cs, jc + 1);
    let je = match skip_value(cs, jv) {
        None => {
            return None;
        },
        Some(e) => e,
    };
    let span = sub_vec(cs, jv, je);
    let ghost gk = key@;
    let ghost gspan = span@;
    let ghost mid = out@;
    out.push((key, span));
    let ghost head = seq![(gk, gspan)];
    proof {
        let last = out@[mid.len() as int];
        assert(out@ =~= mid + seq![last]);
        assert(last.0@ == gk && last.1@ == gspan);
        lemma_pairs_view_concat(mid, seq![last]);
        assert(seq![last].len() == 1);
        assert(seq![last][0] == last);
        assert(seq![last].drop_first() =~= Seq::<(String, Vec<char>)>::empty());
        assert(pairs_view(seq![last]) == seq![(last.0@, last.1@)] + pairs_view(
            Seq::<(String, Vec<char>)>::empty(),
        ));
        assert(seq![(gk, gspan)] + Seq::<(Seq<char>, Seq<char>)>::empty() =~= head);
        assert(pairs_view(out@) == pairs_view(mid) + head);
    }
    let ja = skip_ws(cs, je);
    if ja < cs.len() && cs[ja] == ',' {
        let jn = skip_ws(cs, ja + 1);
        let r = members_rec(cs, jn, out, Ghost((fuel - 1) as nat));
        proof {
            if spec_members(cs@, j as int, fuel) matches Some(p) {
                let q = spec_members(cs@, jn as int, (fuel - 1) as nat)->Some_0;
                assert(pairs_view(mid) + head + q.0 =~= pairs_view(mid) + (head + q.0));
            }
        }
        r
    } else if ja < cs.len() && cs[ja] == '}' {
        Some(ja + 1)
    } else {
        None
    }
}

/// Splits one JSON object into its members, per `spec_object_members`.
fn object_members(cs: &Vec<char>) -> (r: Option<Vec<(String, Vec<char>)>>)
    ensures
        match spec_object_members(cs@) {
            Some(ms) => r matches Some(v) && pairs_view(v@) == ms,
            None => r is None,
        },
{
    let j = skip_ws(cs, 0);
    if !(j < cs.len() && cs[j] == '{') {
        return None;
    }
    let j1 = skip_ws(cs, j + 1);
    let mut out: Vec<(String, Vec<char>)> = Vec::new();
    if j1 < cs.len() && cs[j1] == '}' {
        if skip_ws(cs, j1 + 1) == cs.len() {
            return Some(out);
        }
        return None;
    }
    match members_rec(cs, j1, &mut out, Ghost((cs@.len() + 1) as nat)) {
        None => None,
        Some(e) => {
            let j2 = skip_ws(cs, e);
            if j2 == cs.len() {
                Some(out)
            } else {
                None
            }
        },
    }
}

/// The reading of an object's members: each of the three field names
/// must appear exactly once, with a value that is a decimal literal;
/// members under any other name are ignored; a duplicate of a known
/// field, a missing field, or a value that is not a decimal yields
/// `None`. The accumulators carry fields already read.
pub open spec fn spec_read_fields(
    ms: Seq<(Seq<char>, Seq<char>)>,
    cpu: Option<Decimal>,
    gpu: Option<Decimal>,
    overall: Option<Decimal>,
) -> Option<Thresholds>
    decreases ms.len(),
{
    if ms.len() == 0 {
        match cpu {
            Some(c) => match gpu {
                Some(g) => match overall {
                    Some(o) => Some(
                        Thresholds {
                            cpu_temp_threshold: c,
                            gpu_temp_threshold: g,
                            overall_temp_threshold: o,
                        },
                    ),
                    None => None,
                },
                None => None,
            },
            None => None,
        }
    } else {
        let name = ms[0].0;
        let span = ms[0].1;
        if name == "cpu_temp_threshold"@ {
            if cpu is Some {
                None
            } else {
                match spec_parse_dec(span) {
                    None => None,
                    Some(d) => spec_read_fields(ms.drop_first(), Some(d), gpu, overall),
                }
            }
        } else if name == "gpu_temp_threshold"@ {
            if gpu is Some {
                None
            } else {
                match spec_parse_dec(span) {
                    None => None,
                    Some(d) => spec_read_fields(ms.drop_first(), cpu, Some(d), overall),
                }
            }
        } else if name == "overall_temp_threshold"@ {
            if overall is Some {
                None
            } else {
                match spec_parse_dec(span) {
                    None => None,
                    Some(d) => spec_read_fields(ms.drop_first(), cpu, gpu, Some(d)),
                }
            }
        } else {
            spec_read_fields(ms.drop_first(), cpu, gpu, overall)
        }
    }
}

fn read_fields_rec(
    ms: &Vec<(String, Vec<char>)>,
    i: usize,
    cpu: Option<Decimal>,
    gpu: Option<Decimal>,
    overall: Option<Decimal>,
) -> (r: Option<Thresholds>)
    requires
        i <= ms.len(),
        cpu matches Some(d) ==> d.wf(),
        gpu matches Some(d) ==> d.wf(),
        overall matches Some(d) ==> d.wf(),
    ensures
        r == spec_read_fields(pairs_view(ms@.skip(i as int)), cpu, gpu, overall),
        r matches Some(t) ==> t.wf(),
    decreases ms.len() - i,
{
    if i == ms.len() {
        proof {
            assert(ms@.skip(i as int) =~= Seq::<(String, Vec<char>)>::empty());
            assert(pairs_view(ms@.skip(i as int)) =~= Seq::<(Seq<char>, Seq<char>)>::empty());
        }
        match cpu {
            Some(c) => match gpu {
                Some(g) => match overall {
                    Some(o) => Some(
                        Thresholds {
                            cpu_temp_threshold: c,
                            gpu_temp_threshold: g,
                            overall_temp_threshold: o,
                        },
                    ),
                    None => None,
                },
                None => None,
            },
            None => None,
        }
    } else {
        let ghost rest = ms@.skip(i as int);
        proof {
            assert(rest[0] == ms@[i as int]);
            assert(rest.drop_first() =~= ms@.skip(i + 1));
            assert(pairs_view(rest) == seq![(rest[0].0@, rest[0].1@)] + pairs_view(
                rest.drop_first(),
            ));
            assert(pairs_view(rest)[0] == (ms@[i as int].0@, ms@[i as int].1@));
            assert(pairs_view(rest).drop_first() =~= pairs_view(ms@.skip(i + 1)));
        }
        let name = &ms[i].0;
        let lit_cpu: String = "cpu_temp_threshold".to_owned();
        let lit_gpu: String = "gpu_temp_threshold".to_owned();
        let lit_overall: String = "overall_temp_threshold".to_owned();
        if *name == lit_cpu {
            if cpu.is_some() {
                return None;
            }
            match parse_dec_chars(&ms[i].1) {
                None => None,
                Some(d) => read_fields_rec(ms, i + 1, Some(d), gpu, overall),
            }
        } else if *name == lit_gpu {
            if gpu.is_some() {
                return None;
            }
            match parse_dec_chars(&ms[i].1) {
                None => None,
                Some(d) => read_fields_rec(ms, i + 1, cpu, Some(d), overall),
            }
        } else if *name == lit_overall {
            if overall.is_some() {
                return None;
            }
            match parse_dec_chars(&ms[i].1) {
                None => None,
                Some(d) => read_fields_rec(ms, i + 1, cpu, gpu, Some(d)),
            }
        } else {
            read_fields_rec(ms, i + 1, cpu, gpu, overall)
        }
    }
}

/// What reading the persisted form gives: the canonical text `encode`
/// prints is recognized exactly; any other spelling goes through the
/// general reader — one JSON object, whitespace and member order free,
/// unknown members ignored, each of the three fields exactly once with a
/// decimal literal value. Anything else is `None`.
pub open spec fn spec_decode_thresholds(s: Seq<char>) -> Option<Thresholds> {
    match spec_decode_canonical(s) {
        Some(t) => Some(t),
        None => match spec_object_members(s) {
            None => None,
            Some(ms) => spec_read_fields(ms, None, None, None),
        },
    }
}

/// Reads the persisted form, per `spec_decode_thresholds`.
pub fn decode_thresholds(s: &str) -> (r: Option<Thresholds>)
    ensures
        r == spec_decode_thresholds(s@),
        r matches Some(t) ==> t.wf(),
{
    let cs = str_to_chars(s);
    match decode_canonical(&cs) {
        Some(t) => Some(t),
        None => match object_members(&cs) {
            None => None,
            Some(ms) => {
                proof {
                    assert(ms@.skip(0) =~= ms@);
                }
                read_fields_rec(&ms, 0, None, None, None)
            },
        },
    }
}

/// Builds the store from what was read from the configuration file:
/// `None` when the file is absent. A file that reads as a threshold
/// triple loads exactly that triple; an absent or malformed file falls
/// back to the defaults — it is never an error.
pub fn load_or_defaults(contents: Option<&str>) -> (r: Thresholds)
    ensures
        contents is None ==> r == spec_defaults(),
        contents matches Some(s) ==> r == (match spec_decode_thresholds(s@) {
            Some(t) => t,
            None => spec_defaults(),
        }),
        r.wf(),
{
    match contents {
        Some(s) => match decode_thresholds(s) {
            Some(t) => t,
            None => Thresholds::new(),
        },
        None => Thresholds::new(),
    }
}

} // verus!
