//! Decoding of the provider's telemetry document into the sensor tree.
//!
//! The wire format is one JSON object per node, with capitalized field
//! names (`"Text"`, `"Value"`, `"Type"`, `"Children"`, ...). Optional
//! fields may be absent or `null`; unknown fields are skipped; a wrong
//! type for a known field, a duplicate field, or a missing `"Text"` or
//! `"Children"` makes the whole document malformed, as does anything that
//! is not valid JSON. Malformed input yields `None`, never a panic.
//!
//! The grammar is stated as spec functions, written as recursive parsers
//! over the character sequence; the nested productions carry a fuel
//! bound, large enough for any document, so that the spec terminates.
//! Each executable parser is proved equal to its spec twin, and
//! `decode_tree` returns exactly what `spec_decode_tree` names: the
//! ghost tree `GNode`, whose texts are the document's characters.

use vstd::prelude::*;
use vstd::utf8::char_u32_cast;
use crate::tree::{Root, Children};
use crate::parse::{
    str_to_chars, chars_to_string, sub_vec, matches_at, parse_dec_chars, is_digit, spec_parse_dec,
};

verus! {

// ------------------------- the ghost tree -------------------------

/// One decoded node as the grammar names it: texts as character
/// sequences, children in document order.
pub struct GNode {
    pub id: Option<i64>,
    pub text: Seq<char>,
    pub min: Option<Seq<char>>,
    pub value: Option<Seq<char>>,
    pub max: Option<Seq<char>>,
    pub image_url: Option<Seq<char>>,
    pub sensor_id: Option<Seq<char>>,
    pub type_field: Option<Seq<char>>,
    pub children: Seq<GNode>,
}

/// The view of an optional string.
pub open spec fn opt_view(o: Option<String>) -> Option<Seq<char>> {
    match o {
        Some(s) => Some(s@),
        None => None,
    }
}

/// The ghost tree a decoded node stands for.
pub open spec fn node_view(c: Children) -> GNode
    decreases c,
    via node_view_decreases
{
    GNode {
        id: c.id,
        text: c.text@,
        min: opt_view(c.min),
        value: opt_view(c.value),
        max: opt_view(c.max),
        image_url: opt_view(c.image_url),
        sensor_id: opt_view(c.sensor_id),
        type_field: opt_view(c.type_field),
        children: nodes_view(c.children@),
    }
}

#[via_fn]
proof fn node_view_decreases(c: Children) {
    assert(decreases_to!(c => c.children));
    assert(decreases_to!(c.children => c.children@));
}

/// The ghost trees a decoded forest stands for.
pub open spec fn nodes_view(s: Seq<Children>) -> Seq<GNode>
    decreases s,
{
    if s.len() == 0 {
        Seq::<GNode>::empty()
    } else {
        seq![node_view(s[0])] + nodes_view(s.drop_first())
    }
}

// --------------------- character-level helpers ---------------------

/// JSON structural whitespace.
pub open spec fn is_json_ws(c: char) -> bool {
    c == ' ' || c == '\t' || c == '\n' || c == '\r'
}

fn is_ws_ch(c: char) -> (b: bool)
    ensures
        b == is_json_ws(c),
{
    c == ' ' || c == '\t' || c == '\n' || c == '\r'
}

fn is_digit_ch(c: char) -> (b: bool)
    ensures
        b == is_digit(c),
{
    let v = c as u32;
    48 <= v && v <= 57
}

/// `w` stands in `s` at position `j`.
pub open spec fn lit_at(s: Seq<char>, j: int, w: Seq<char>) -> bool {
    j + w.len() <= s.len() && s.subrange(j, j + w.len()) == w
}

fn lit_at_ch(s: &Vec<char>, j: usize, w: &Vec<char>) -> (b: bool)
    requires
        j <= s.len(),
    ensures
        b == lit_at(s@, j as int, w@),
{
    w.len() <= s.len() - j && matches_at(s, w, j)
}

fn null_lit() -> (w: Vec<char>)
    ensures
        w@ == "null"@,
        w@.len() == 4,
{
    let w = str_to_chars("null");
    proof {
        reveal_strlit("null");
    }
    w
}

fn true_lit() -> (w: Vec<char>)
    ensures
        w@ == "true"@,
        w@.len() == 4,
{
    let w = str_to_chars("true");
    proof {
        reveal_strlit("true");
    }
    w
}

fn false_lit() -> (w: Vec<char>)
    ensures
        w@ == "false"@,
        w@.len() == 5,
{
    let w = str_to_chars("false");
    proof {
        reveal_strlit("false");
    }
    w
}

/// The position after the run of whitespace starting at `j`.
pub open spec fn spec_ws_end(s: Seq<char>, j: int) -> int
    decreases s.len() - j when 0 <= j <= s.len()
{
    if j < s.len() && is_json_ws(s[j]) {
        spec_ws_end(s, j + 1)
    } else {
        j
    }
}

pub(crate) fn skip_ws(s: &Vec<char>, i: usize) -> (r: usize)
    requires
        i <= s.len(),
    ensures
        r == spec_ws_end(s@, i as int),
        i <= r <= s.len(),
    decreases s.len() - i,
{
    if i < s.len() && is_ws_ch(s[i]) {
        skip_ws(s, i + 1)
    } else {
        i
    }
}

/// The position after the run of digits starting at `j`.
pub open spec fn spec_digit_run(s: Seq<char>, j: int) -> int
    decreases s.len() - j when 0 <= j <= s.len()
{
    if j < s.len() && is_digit(s[j]) {
        spec_digit_run(s, j + 1)
    } else {
        j
    }
}

proof fn lemma_digit_run_lb(s: Seq<char>, j: int)
    requires
        0 <= j <= s.len(),
    ensures
        j <= spec_digit_run(s, j) <= s.len(),
    decreases s.len() - j,
{
    if j < s.len() && is_digit(s[j]) {
        lemma_digit_run_lb(s, j + 1);
    }
}

fn digit_run(s: &Vec<char>, i: usize) -> (r: usize)
    requires
        i <= s.len(),
    ensures
        r == spec_digit_run(s@, i as int),
        i <= r <= s.len(),
    decreases s.len() - i,
{
    if i < s.len() && is_digit_ch(s[i]) {
        digit_run(s, i + 1)
    } else {
        i
    }
}

/// The value of one hexadecimal digit.
pub open spec fn spec_hex_val(c: char) -> Option<u32> {
    let v = c as u32;
    if 48 <= v && v <= 57 {
        Some((v - 48) as u32)
    } else if 97 <= v && v <= 102 {
        Some((v - 87) as u32)
    } else if 65 <= v && v <= 70 {
        Some((v - 55) as u32)
    } else {
        None
    }
}

fn hex_val(c: char) -> (r: Option<u32>)
    ensures
        r == spec_hex_val(c),
        r matches Some(v) ==> v < 16,
{
    let v = c as u32;
    if 48 <= v && v <= 57 {
        Some(v - 48)
    } else if 97 <= v && v <= 102 {
        Some(v - 87)
    } else if 65 <= v && v <= 70 {
        Some(v - 55)
    } else {
        None
    }
}

/// The value of the four hexadecimal digits at `j`.
pub open spec fn spec_hex4(s: Seq<char>, j: int) -> Option<u32> {
    if s.len() - j < 4 || j < 0 {
        None
    } else {
        match spec_hex_val(s[j]) {
            None => None,
            Some(a) => match spec_hex_val(s[j + 1]) {
                None => None,
                Some(b) => match spec_hex_val(s[j + 2]) {
                    None => None,
                    Some(c) => match spec_hex_val(s[j + 3]) {
                        None => None,
                        Some(d) => Some((((a * 16 + b) * 16 + c) * 16 + d) as u32),
                    },
                },
            },
        }
    }
}

fn parse_hex4(s: &Vec<char>, i: usize) -> (r: Option<u32>)
    requires
        i <= s.len(),
    ensures
        r == spec_hex4(s@, i as int),
        r matches Some(v) ==> v < 0x10000 && i + 4 <= s.len(),
{
    if s.len() - i < 4 {
        return None;
    }
    let a = match hex_val(s[i]) {
        None => {
            return None;
        },
        Some(v) => v,
    };
    let b = match hex_val(s[i + 1]) {
        None => {
            return None;
        },
        Some(v) => v,
    };
    let c = match hex_val(s[i + 2]) {
        None => {
            return None;
        },
        Some(v) => v,
    };
    let d = match hex_val(s[i + 3]) {
        None => {
            return None;
        },
        Some(v) => v,
    };
    Some(((a * 16 + b) * 16 + c) * 16 + d)
}

/// Relies on char::from_u32: `Some` exactly for the Unicode scalar
/// values (below the surrogate range or between it and 0x10FFFF), and the
/// returned character has the given value.
#[verifier::external_body]
fn char_from_u32(v: u32) -> (r: Option<char>)
    ensures
        r matches Some(c) ==> c as u32 == v,
        r is Some <==> (v < 0xD800 || (0xE000 <= v && v <= 0x10FFFF)),
{
    char::from_u32(v)
}

/// What a single-character escape stands for.
pub open spec fn spec_esc(e: char) -> Option<char> {
    if e == '"' {
        Some('"')
    } else if e == '\\' {
        Some('\\')
    } else if e == '/' {
        Some('/')
    } else if e == 'b' {
        Some('\u{0008}')
    } else if e == 'f' {
        Some('\u{000c}')
    } else if e == 'n' {
        Some('\n')
    } else if e == 'r' {
        Some('\r')
    } else if e == 't' {
        Some('\t')
    } else {
        None
    }
}

// --------------------------- strings ---------------------------

/// The content and end of a string body starting at `j` (after the
/// opening quote): characters up to the closing quote, with the standard
/// escapes, `\uXXXX` and surrogate pairs processed; raw control
/// characters, bad escapes and lone surrogates are malformed.
pub open spec fn spec_str_tail(s: Seq<char>, j: int) -> Option<(Seq<char>, int)>
    decreases s.len() - j when 0 <= j <= s.len()
{
    if j >= s.len() {
        None
    } else {
        let c = s[j];
        if c == '"' {
            Some((Seq::<char>::empty(), j + 1))
        } else if c == '\\' {
            if s.len() - j < 2 {
                None
            } else {
                let e = s[j + 1];
                if e == 'u' {
                    match spec_hex4(s, j + 2) {
                        None => None,
                        Some(v) => {
                            if 0xD800 <= v && v <= 0xDBFF {
                                if s.len() - j < 12 {
                                    None
                                } else if !(s[j + 6] == '\\' && s[j + 7] == 'u') {
                                    None
                                } else {
                                    match spec_hex4(s, j + 8) {
                                        None => None,
                                        Some(w) => {
                                            if !(0xDC00 <= w && w <= 0xDFFF) {
                                                None
                                            } else {
                                                let cp = (0x10000 + (v - 0xD800) * 0x400 + (w
                                                    - 0xDC00)) as u32;
                                                match spec_str_tail(s, j + 12) {
                                                    None => None,
                                                    Some(p) => Some(
                                                        (seq![cp as char] + p.0, p.1),
                                                    ),
                                                }
                                            }
                                        },
                                    }
                                }
                            } else if 0xDC00 <= v && v <= 0xDFFF {
                                None
                            } else {
                                match spec_str_tail(s, j + 6) {
                                    None => None,
                                    Some(p) => Some((seq![v as char] + p.0, p.1)),
                                }
                            }
                        },
                    }
                } else {
                    match spec_esc(e) {
                        None => None,
                        Some(m) => match spec_str_tail(s, j + 2) {
                            None => None,
                            Some(p) => Some((seq![m] + p.0, p.1)),
                        },
                    }
                }
            }
        } else if (c as u32) < 0x20 {
            None
        } else {
            match spec_str_tail(s, j + 1) {
                None => None,
                Some(p) => Some((seq![c] + p.0, p.1)),
            }
        }
    }
}

/// A whole string literal at `j`: an opening quote, then its body.
pub open spec fn spec_string(s: Seq<char>, j: int) -> Option<(Seq<char>, int)> {
    if 0 <= j < s.len() && s[j] == '"' {
        spec_str_tail(s, j + 1)
    } else {
        None
    }
}

fn str_tail(s: &Vec<char>, j: usize, out: &mut Vec<char>) -> (r: Option<usize>)
    requires
        j <= s.len(),
    ensures
        spec_str_tail(s@, j as int) matches Some(p) ==> r matches Some(e) && e == p.1
            && final(out)@ == old(out)@ + p.0,
        spec_str_tail(s@, j as int) is None ==> r is None,
        r matches Some(e) ==> j < e <= s.len(),
    decreases s.len() - j,
{
    if j >= s.len() {
        return None;
    }
    let c = s[j];
    if c == '"' {
        proof {
            assert(out@ =~= old(out)@ + Seq::<char>::empty());
        }
        return Some(j + 1);
    }
    if c == '\\' {
        if s.len() - j < 2 {
            return None;
        }
        let e = s[j + 1];
        if e == 'u' {
            let v = match parse_hex4(s, j + 2) {
                None => {
                    return None;
                },
                Some(v) => v,
            };
            if 0xD800 <= v && v <= 0xDBFF {
                if s.len() - j < 12 {
                    return None;
                }
                if !(s[j + 6] == '\\' && s[j + 7] == 'u') {
                    return None;
                }
                let w = match parse_hex4(s, j + 8) {
                    None => {
                        return None;
                    },
                    Some(w) => w,
                };
                if !(0xDC00 <= w && w <= 0xDFFF) {
                    return None;
                }
                let cp = 0x10000 + (v - 0xD800) * 0x400 + (w - 0xDC00);
                let ch = match char_from_u32(cp) {
                    None => {
                        return None;
                    },
                    Some(ch) => ch,
                };
                proof {
                    char_u32_cast(ch, cp);
                }
                let ghost mid = out@;
                out.push(ch);
                let r = str_tail(s, j + 12, out);
                proof {
                    if spec_str_tail(s@, j as int) matches Some(p) {
                        let rest = spec_str_tail(s@, j + 12)->Some_0;
                        assert(mid + seq![ch] + rest.0 =~= mid + (seq![ch] + rest.0));
                    }
                }
                r
            } else {
                let ch = match char_from_u32(v) {
                    None => {
                        return None;
                    },
                    Some(ch) => ch,
                };
                proof {
                    char_u32_cast(ch, v);
                }
                let ghost mid = out@;
                out.push(ch);
                let r = str_tail(s, j + 6, out);
                proof {
                    if spec_str_tail(s@, j as int) matches Some(p) {
                        let rest = spec_str_tail(s@, j + 6)->Some_0;
                        assert(mid + seq![ch] + rest.0 =~= mid + (seq![ch] + rest.0));
                    }
                }
                r
            }
        } else {
            let ch = if e == '"' {
                '"'
            } else if e == '\\' {
                '\\'
            } else if e == '/' {
                '/'
            } else if e == 'b' {
                '\u{0008}'
            } else if e == 'f' {
                '\u{000c}'
            } else if e == 'n' {
                '\n'
            } else if e == 'r' {
                '\r'
            } else if e == 't' {
                '\t'
            } else {
                return None;
            };
            let ghost mid = out@;
            out.push(ch);
            let r = str_tail(s, j + 2, out);
            proof {
                if spec_str_tail(s@, j as int) matches Some(p) {
                    let rest = spec_str_tail(s@, j + 2)->Some_0;
                    assert(mid + seq![ch] + rest.0 =~= mid + (seq![ch] + rest.0));
                }
            }
            r
        }
    } else if (c as u32) < 0x20 {
        None
    } else {
        let ghost mid = out@;
        out.push(c);
        let r = str_tail(s, j + 1, out);
        proof {
            if spec_str_tail(s@, j as int) matches Some(p) {
                let rest = spec_str_tail(s@, j + 1)->Some_0;
                assert(mid + seq![c] + rest.0 =~= mid + (seq![c] + rest.0));
            }
        }
        r
    }
}

/// Reads a string literal: its unescaped content and the position after
/// the closing quote.
pub(crate) fn parse_string(s: &Vec<char>, i: usize) -> (r: Option<(String, usize)>)
    requires
        i <= s.len(),
    ensures
        spec_string(s@, i as int) matches Some(p) ==> r matches Some(q) && q.0@ == p.0 && q.1
            == p.1,
        spec_string(s@, i as int) is None ==> r is None,
        r matches Some(q) ==> i < q.1 <= s.len(),
{
    if !(i < s.len() && s[i] == '"') {
        return None;
    }
    let mut out: Vec<char> = Vec::new();
    match str_tail(s, i + 1, &mut out) {
        None => None,
        Some(e) => Some((chars_to_string(&out), e)),
    }
}

// --------------------------- numbers ---------------------------

/// The end of a JSON number at `j`: an optional minus, an integer part
/// without leading zeros, an optional fraction and an optional exponent,
/// each with at least one digit.
pub open spec fn spec_number_end(s: Seq<char>, j: int) -> Option<int> {
    if j < 0 {
        None
    } else {
        let j0 = if j < s.len() && s[j] == '-' { j + 1 } else { j };
        if !(j0 < s.len() && is_digit(s[j0])) {
            None
        } else {
            let j1 = if s[j0] == '0' { j0 + 1 } else { spec_digit_run(s, j0) };
            let j2 = if j1 < s.len() && s[j1] == '.' {
                if j1 + 1 < s.len() && is_digit(s[j1 + 1]) {
                    spec_digit_run(s, j1 + 1)
                } else {
                    -1
                }
            } else {
                j1
            };
            if j2 < 0 {
                None
            } else {
                let j3 = if j2 < s.len() && (s[j2] == 'e' || s[j2] == 'E') {
                    let j2s = if j2 + 1 < s.len() && (s[j2 + 1] == '+' || s[j2 + 1] == '-') {
                        j2 + 2
                    } else {
                        j2 + 1
                    };
                    if j2s < s.len() && is_digit(s[j2s]) {
                        spec_digit_run(s, j2s)
                    } else {
                        -1
                    }
                } else {
                    j2
                };
                if j3 < 0 {
                    None
                } else {
                    Some(j3)
                }
            }
        }
    }
}

fn json_number_end(s: &Vec<char>, i: usize) -> (r: Option<usize>)
    requires
        i <= s.len(),
    ensures
        match spec_number_end(s@, i as int) {
            Some(e) => r matches Some(x) && x == e,
            None => r is None,
        },
        r matches Some(x) ==> i < x <= s.len(),
{
    let mut j: usize = i;
    if j < s.len() && s[j] == '-' {
        j = j + 1;
    }
    if !(j < s.len() && is_digit_ch(s[j])) {
        return None;
    }
    let j1: usize = if s[j] == '0' {
        j + 1
    } else {
        digit_run(s, j)
    };
    proof {
        if s@[j as int] != '0' {
            lemma_digit_run_lb(s@, j + 1);
            assert(spec_digit_run(s@, j as int) == spec_digit_run(s@, j + 1));
        }
    }
    let j2: usize = if j1 < s.len() && s[j1] == '.' {
        if j1 + 1 < s.len() && is_digit_ch(s[j1 + 1]) {
            digit_run(s, j1 + 1)
        } else {
            return None;
        }
    } else {
        j1
    };
    let j3: usize = if j2 < s.len() && (s[j2] == 'e' || s[j2] == 'E') {
        let j2s: usize = if j2 + 1 < s.len() && (s[j2 + 1] == '+' || s[j2 + 1] == '-') {
            j2 + 2
        } else {
            j2 + 1
        };
        if j2s < s.len() && is_digit_ch(s[j2s]) {
            digit_run(s, j2s)
        } else {
            return None;
        }
    } else {
        j2
    };
    Some(j3)
}

// ------------------------ skipping values ------------------------

/// The end of one JSON value of any shape at `j`. The fuel bounds the
/// recursion; any value inside a document of length `n` is consumed with
/// fuel `n + 1`.
pub open spec fn spec_skip_value(s: Seq<char>, j: int, fuel: nat) -> Option<int>
    decreases fuel, 0int,
{
    if fuel == 0 || j < 0 || j >= s.len() {
        None
    } else {
        let c = s[j];
        if c == '"' {
            match spec_string(s, j) {
                None => None,
                Some(p) => Some(p.1),
            }
        } else if c == '{' {
            let j1 = spec_ws_end(s, j + 1);
            if j1 < s.len() && s[j1] == '}' {
                Some(j1 + 1)
            } else {
                spec_skip_members(s, j1, (fuel - 1) as nat)
            }
        } else if c == '[' {
            let j1 = spec_ws_end(s, j + 1);
            if j1 < s.len() && s[j1] == ']' {
                Some(j1 + 1)
            } else {
                spec_skip_elements(s, j1, (fuel - 1) as nat)
            }
        } else if c == 't' {
            if lit_at(s, j, "true"@) {
                Some(j + 4)
            } else {
                None
            }
        } else if c == 'f' {
            if lit_at(s, j, "false"@) {
                Some(j + 5)
            } else {
                None
            }
        } else if c == 'n' {
            if lit_at(s, j, "null"@) {
                Some(j + 4)
            } else {
                None
            }
        } else if c == '-' || is_digit(c) {
            spec_number_end(s, j)
        } else {
            None
        }
    }
}

/// The end of a member list at `j` (a key), up to and past the closing
/// brace.
pub open spec fn spec_skip_members(s: Seq<char>, j: int, fuel: nat) -> Option<int>
    decreases fuel, 1int,
{
    if fuel == 0 {
        None
    } else {
        match spec_string(s, j) {
            None => None,
            Some(k) => {
                let jc = spec_ws_end(s, k.1);
                if !(jc < s.len() && s[jc] == ':') {
                    None
                } else {
                    let jv = spec_ws_end(s, jc + 1);
                    match spec_skip_value(s, jv, fuel) {
                        None => None,
                        Some(je) => {
                            let ja = spec_ws_end(s, je);
                            if ja < s.len() && s[ja] == ',' {
                                spec_skip_members(s, spec_ws_end(s, ja + 1), (fuel - 1) as nat)
                            } else if ja < s.len() && s[ja] == '}' {
                                Some(ja + 1)
                            } else {
                                None
                            }
                        },
                    }
                }
            },
        }
    }
}

/// The end of an element list at `j` (a value), up to and past the
/// closing bracket.
pub open spec fn spec_skip_elements(s: Seq<char>, j: int, fuel: nat) -> Option<int>
    decreases fuel, 1int,
{
    if fuel == 0 {
        None
    } else {
        match spec_skip_value(s, j, fuel) {
            None => None,
            Some(je) => {
                let ja = spec_ws_end(s, je);
                if ja < s.len() && s[ja] == ',' {
                    spec_skip_elements(s, spec_ws_end(s, ja + 1), (fuel - 1) as nat)
                } else if ja < s.len() && s[ja] == ']' {
                    Some(ja + 1)
                } else {
                    None
                }
            },
        }
    }
}

fn skip_value_rec(s: &Vec<char>, j: usize, Ghost(fuel): Ghost<nat>) -> (r: Option<usize>)
    requires
        j <= s.len(),
        fuel >= s.len() - j + 1,
    ensures
        match spec_skip_value(s@, j as int, fuel) {
            Some(e) => r matches Some(x) && x == e,
            None => r is None,
        },
        r matches Some(x) ==> j < x <= s.len(),
    decreases s.len() - j, 0int,
{
    if j >= s.len() {
        return None;
    }
    let c = s[j];
    if c == '"' {
        match parse_string(s, j) {
            None => None,
            Some(p) => Some(p.1),
        }
    } else if c == '{' {
        let j1 = skip_ws(s, j + 1);
        if j1 < s.len() && s[j1] == '}' {
            Some(j1 + 1)
        } else {
            skip_members(s, j1, Ghost((fuel - 1) as nat))
        }
    } else if c == '[' {
        let j1 = skip_ws(s, j + 1);
        if j1 < s.len() && s[j1] == ']' {
            Some(j1 + 1)
        } else {
            skip_elements(s, j1, Ghost((fuel - 1) as nat))
        }
    } else if c == 't' {
        let w = true_lit();
        if lit_at_ch(s, j, &w) {
            Some(j + 4)
        } else {
            None
        }
    } else if c == 'f' {
        let w = false_lit();
        if lit_at_ch(s, j, &w) {
            Some(j + 5)
        } else {
            None
        }
    } else if c == 'n' {
        let w = null_lit();
        if lit_at_ch(s, j, &w) {
            Some(j + 4)
        } else {
            None
        }
    } else if c == '-' || is_digit_ch(c) {
        json_number_end(s, j)
    } else {
        None
    }
}

fn skip_members(s: &Vec<char>, j: usize, Ghost(fuel): Ghost<nat>) -> (r: Option<usize>)
    requires
        j <= s.len(),
        fuel >= s.len() - j + 1,
    ensures
        match spec_skip_members(s@, j as int, fuel) {
            Some(e) => r matches Some(x) && x == e,
            None => r is None,
        },
        r matches Some(x) ==> j < x <= s.len(),
    decreases s.len() - j, 1int,
{
    let (_, jk) = match parse_string(s, j) {
        None => {
            return None;
        },
        Some(p) => p,
    };
    let jc = skip_ws(s, jk);
    if !(jc < s.len() && s[jc] == ':') {
        return None;
    }
    let jv = skip_ws(s, jc + 1);
    let je = match skip_value_rec(s, jv, Ghost(fuel)) {
        None => {
            return None;
        },
        Some(e) => e,
    };
    let ja = skip_ws(s, je);
    if ja < s.len() && s[ja] == ',' {
        let jn = skip_ws(s, ja + 1);
        skip_members(s, jn, Ghost((fuel - 1) as nat))
    } else if ja < s.len() && s[ja] == '}' {
        Some(ja + 1)
    } else {
        None
    }
}

fn skip_elements(s: &Vec<char>, j: usize, Ghost(fuel): Ghost<nat>) -> (r: Option<usize>)
    requires
        j <= s.len(),
        fuel >= s.len() - j + 1,
    ensures
        match spec_skip_elements(s@, j as int, fuel) {
            Some(e) => r matches Some(x) && x == e,
            None => r is None,
        },
        r matches Some(x) ==> j < x <= s.len(),
    decreases s.len() - j, 1int,
{
    let je = match skip_value_rec(s, j, Ghost(fuel)) {
        None => {
            return None;
        },
        Some(e) => e,
    };
    let ja = skip_ws(s, je);
    if ja < s.len() && s[ja] == ',' {
        let jn = skip_ws(s, ja + 1);
        skip_elements(s, jn, Ghost((fuel - 1) as nat))
    } else if ja < s.len() && s[ja] == ']' {
        Some(ja + 1)
    } else {
        None
    }
}

/// Consumes one JSON value of any shape, with fuel enough for any value.
pub(crate) fn skip_value(s: &Vec<char>, i: usize) -> (r: Option<usize>)
    requires
        i <= s.len(),
    ensures
        match spec_skip_value(s@, i as int, (s@.len() + 1) as nat) {
            Some(e) => r matches Some(x) && x == e,
            None => r is None,
        },
        r matches Some(x) ==> i < x <= s.len(),
{
    skip_value_rec(s, i, Ghost((s@.len() + 1) as nat))
}

// ----------------------- typed field values -----------------------

/// A string field's value: a string literal or `null`.
pub open spec fn spec_opt_string(s: Seq<char>, j: int) -> Option<(Option<Seq<char>>, int)> {
    if 0 <= j < s.len() && s[j] == '"' {
        match spec_string(s, j) {
            None => None,
            Some(p) => Some((Some(p.0), p.1)),
        }
    } else if 0 <= j < s.len() && s[j] == 'n' && lit_at(s, j, "null"@) {
        Some((None, j + 4))
    } else {
        None
    }
}

fn parse_opt_string(s: &Vec<char>, i: usize) -> (r: Option<(Option<String>, usize)>)
    requires
        i <= s.len(),
    ensures
        match spec_opt_string(s@, i as int) {
            Some(p) => r matches Some(q) && opt_view(q.0) == p.0 && q.1 == p.1,
            None => r is None,
        },
        r matches Some(q) ==> i < q.1 <= s.len(),
{
    if i < s.len() && s[i] == '"' {
        match parse_string(s, i) {
            None => None,
            Some(p) => Some((Some(p.0), p.1)),
        }
    } else {
        let w = null_lit();
        if i < s.len() && s[i] == 'n' && lit_at_ch(s, i, &w) {
            Some((None, i + 4))
        } else {
            None
        }
    }
}

/// A fraction dot or an exponent letter stands somewhere in `s[j..e]`.
pub open spec fn spec_has_frac_exp(s: Seq<char>, j: int, e: int) -> bool
    decreases e - j when j <= e
{
    if j < e && 0 <= j < s.len() {
        if s[j] == '.' || s[j] == 'e' || s[j] == 'E' {
            true
        } else {
            spec_has_frac_exp(s, j + 1, e)
        }
    } else {
        false
    }
}

fn scan_frac_exp(s: &Vec<char>, k: usize, e: usize) -> (b: bool)
    requires
        k <= e <= s.len(),
    ensures
        b == spec_has_frac_exp(s@, k as int, e as int),
    decreases e - k,
{
    if k < e {
        let c = s[k];
        if c == '.' || c == 'e' || c == 'E' {
            true
        } else {
            scan_frac_exp(s, k + 1, e)
        }
    } else {
        false
    }
}

/// An integer field's value: a JSON integer literal (no fraction, no
/// exponent) that fits an `i64`, or `null`.
pub open spec fn spec_opt_i64(s: Seq<char>, j: int) -> Option<(Option<i64>, int)> {
    if 0 <= j < s.len() && (s[j] == '-' || is_digit(s[j])) {
        match spec_number_end(s, j) {
            None => None,
            Some(e) => {
                if spec_has_frac_exp(s, j, e) {
                    None
                } else {
                    match spec_parse_dec(s.subrange(j, e)) {
                        None => None,
                        Some(d) => if d.scale == 0 {
                            Some((Some(d.mantissa), e))
                        } else {
                            None
                        },
                    }
                }
            },
        }
    } else if 0 <= j < s.len() && s[j] == 'n' && lit_at(s, j, "null"@) {
        Some((None, j + 4))
    } else {
        None
    }
}

fn parse_opt_i64(s: &Vec<char>, i: usize) -> (r: Option<(Option<i64>, usize)>)
    requires
        i <= s.len(),
    ensures
        match spec_opt_i64(s@, i as int) {
            Some(p) => r matches Some(q) && q.0 == p.0 && q.1 == p.1,
            None => r is None,
        },
        r matches Some(q) ==> i < q.1 <= s.len(),
{
    if i < s.len() && (s[i] == '-' || is_digit_ch(s[i])) {
        let j = match json_number_end(s, i) {
            None => {
                return None;
            },
            Some(j) => j,
        };
        if scan_frac_exp(s, i, j) {
            return None;
        }
        let span = sub_vec(s, i, j);
        match parse_dec_chars(&span) {
            None => None,
            Some(d) => {
                if d.scale == 0 {
                    Some((Some(d.mantissa), j))
                } else {
                    None
                }
            },
        }
    } else {
        let w = null_lit();
        if i < s.len() && s[i] == 'n' && lit_at_ch(s, i, &w) {
            Some((None, i + 4))
        } else {
            None
        }
    }
}

// --------------------------- the node ---------------------------

/// The fields of one node read so far: the value of each known field,
/// and whether it was seen (to reject duplicates).
pub struct GAcc {
    pub id: Option<i64>,
    pub has_id: bool,
    pub text: Option<Seq<char>>,
    pub min: Option<Seq<char>>,
    pub has_min: bool,
    pub value: Option<Seq<char>>,
    pub has_value: bool,
    pub max: Option<Seq<char>>,
    pub has_max: bool,
    pub image_url: Option<Seq<char>>,
    pub has_image_url: bool,
    pub sensor_id: Option<Seq<char>>,
    pub has_sensor_id: bool,
    pub type_field: Option<Seq<char>>,
    pub has_type: bool,
    pub children: Option<Seq<GNode>>,
}

pub open spec fn empty_gacc() -> GAcc {
    GAcc {
        id: None,
        has_id: false,
        text: None,
        min: None,
        has_min: false,
        value: None,
        has_value: false,
        max: None,
        has_max: false,
        image_url: None,
        has_image_url: false,
        sensor_id: None,
        has_sensor_id: false,
        type_field: None,
        has_type: false,
        children: None,
    }
}

/// Closes a node: `"Text"` and `"Children"` are required; everything
/// else defaults to absent.
pub open spec fn spec_finish(a: GAcc, end: int) -> Option<(GNode, int)> {
    match a.text {
        None => None,
        Some(t) => match a.children {
            None => None,
            Some(cs) => Some(
                (
                    GNode {
                        id: a.id,
                        text: t,
                        min: a.min,
                        value: a.value,
                        max: a.max,
                        image_url: a.image_url,
                        sensor_id: a.sensor_id,
                        type_field: a.type_field,
                        children: cs,
                    },
                    end,
                ),
            ),
        },
    }
}

/// One node object at `j`: a brace, its members, the closing brace.
pub open spec fn spec_node(s: Seq<char>, j: int, fuel: nat) -> Option<(GNode, int)>
    decreases fuel, 2int,
{
    if !(0 <= j < s.len() && s[j] == '{') {
        None
    } else {
        let j1 = spec_ws_end(s, j + 1);
        if j1 < s.len() && s[j1] == '}' {
            spec_finish(empty_gacc(), j1 + 1)
        } else {
            spec_fields(s, j1, empty_gacc(), fuel)
        }
    }
}

/// The members of a node from a key at `j` on: each known field read
/// once with its typed value, unknown members skipped whole.
pub open spec fn spec_fields(s: Seq<char>, j: int, a: GAcc, fuel: nat) -> Option<(GNode, int)>
    decreases fuel, 1int,
{
    if fuel == 0 {
        None
    } else {
        match spec_string(s, j) {
            None => None,
            Some(k) => {
                let key = k.0;
                let jc = spec_ws_end(s, k.1);
                if !(jc < s.len() && s[jc] == ':') {
                    None
                } else {
                    let jv = spec_ws_end(s, jc + 1);
                    if key == "Id"@ {
                        if a.has_id {
                            None
                        } else {
                            match spec_opt_i64(s, jv) {
                                None => None,
                                Some(p) => spec_after(
                                    s,
                                    p.1,
                                    GAcc { id: p.0, has_id: true, ..a },
                                    fuel,
                                ),
                            }
                        }
                    } else if key == "Text"@ {
                        if a.text is Some {
                            None
                        } else {
                            match spec_string(s, jv) {
                                None => None,
                                Some(p) => spec_after(s, p.1, GAcc { text: Some(p.0), ..a }, fuel),
                            }
                        }
                    } else if key == "Min"@ {
                        if a.has_min {
                            None
                        } else {
                            match spec_opt_string(s, jv) {
                                None => None,
                                Some(p) => spec_after(
                                    s,
                                    p.1,
                                    GAcc { min: p.0, has_min: true, ..a },
                                    fuel,
                                ),
                            }
                        }
                    } else if key == "Value"@ {
                        if a.has_value {
                            None
                        } else {
                            match spec_opt_string(s, jv) {
                                None => None,
                                Some(p) => spec_after(
                                    s,
                                    p.1,
                                    GAcc { value: p.0, has_value: true, ..a },
                                    fuel,
                                ),
                            }
                        }
                    } else if key == "Max"@ {
                        if a.has_max {
                            None
                        } else {
                            match spec_opt_string(s, jv) {
                                None => None,
                                Some(p) => spec_after(
                                    s,
                                    p.1,
                                    GAcc { max: p.0, has_max: true, ..a },
                                    fuel,
                                ),
                            }
                        }
                    } else if key == "ImageUrl"@ {
                        if a.has_image_url {
                            None
                        } else {
                            match spec_opt_string(s, jv) {
                                None => None,
                                Some(p) => spec_after(
                                    s,
                                    p.1,
                                    GAcc { image_url: p.0, has_image_url: true, ..a },
                                    fuel,
                                ),
                            }
                        }
                    } else if key == "SensorId"@ {
                        if a.has_sensor_id {
                            None
                        } else {
                            match spec_opt_string(s, jv) {
                                None => None,
                                Some(p) => spec_after(
                                    s,
                                    p.1,
                                    GAcc { sensor_id: p.0, has_sensor_id: true, ..a },
                                    fuel,
                                ),
                            }
                        }
                    } else if key == "Type"@ {
                        if a.has_type {
                            None
                        } else {
                            match spec_opt_string(s, jv) {
                                None => None,
                                Some(p) => spec_after(
                                    s,
                                    p.1,
                                    GAcc { type_field: p.0, has_type: true, ..a },
                                    fuel,
                                ),
                            }
                        }
                    } else if key == "Children"@ {
                        if a.children is Some {
                            None
                        } else {
                            match spec_elems(s, jv, (fuel - 1) as nat) {
                                None => None,
                                Some(p) => spec_after(
                                    s,
                                    p.1,
                                    GAcc { children: Some(p.0), ..a },
                                    fuel,
                                ),
                            }
                        }
                    } else {
                        match spec_skip_value(s, jv, (fuel - 1) as nat) {
                            None => None,
                            Some(je) => spec_after(s, je, a, fuel),
                        }
                    }
                }
            },
        }
    }
}

/// After a member's value: a comma continues the members, a brace closes
/// the node.
pub open spec fn spec_after(s: Seq<char>, je: int, a: GAcc, fuel: nat) -> Option<(GNode, int)>
    decreases fuel, 0int,
{
    if fuel == 0 {
        None
    } else {
        let ja = spec_ws_end(s, je);
        if ja < s.len() && s[ja] == ',' {
            spec_fields(s, spec_ws_end(s, ja + 1), a, (fuel - 1) as nat)
        } else if ja < s.len() && s[ja] == '}' {
            spec_finish(a, ja + 1)
        } else {
            None
        }
    }
}

/// A children array at `j`: brackets around node objects.
pub open spec fn spec_elems(s: Seq<char>, j: int, fuel: nat) -> Option<(Seq<GNode>, int)>
    decreases fuel, 4int,
{
    if !(0 <= j < s.len() && s[j] == '[') {
        None
    } else {
        let j1 = spec_ws_end(s, j + 1);
        if j1 < s.len() && s[j1] == ']' {
            Some((Seq::<GNode>::empty(), j1 + 1))
        } else {
            spec_elems_rest(s, j1, fuel)
        }
    }
}

/// The elements of a children array from a node at `j` on.
pub open spec fn spec_elems_rest(s: Seq<char>, j: int, fuel: nat) -> Option<(Seq<GNode>, int)>
    decreases fuel, 3int,
{
    if fuel == 0 {
        None
    } else {
        match spec_node(s, j, fuel) {
            None => None,
            Some(p) => {
                let ja = spec_ws_end(s, p.1);
                if ja < s.len() && s[ja] == ',' {
                    match spec_elems_rest(s, spec_ws_end(s, ja + 1), (fuel - 1) as nat) {
                        None => None,
                        Some(q) => Some((seq![p.0] + q.0, q.1)),
                    }
                } else if ja < s.len() && s[ja] == ']' {
                    Some((seq![p.0], ja + 1))
                } else {
                    None
                }
            },
        }
    }
}

/// The whole document: optional whitespace, one node object, optional
/// whitespace, the end.
pub open spec fn spec_decode_tree(body: Seq<char>) -> Option<GNode> {
    let j = spec_ws_end(body, 0);
    match spec_node(body, j, (body.len() + 1) as nat) {
        None => None,
        Some(p) => if spec_ws_end(body, p.1) == body.len() {
            Some(p.0)
        } else {
            None
        },
    }
}

struct NodeAcc {
    id: Option<i64>,
    has_id: bool,
    text: Option<String>,
    min: Option<String>,
    has_min: bool,
    value: Option<String>,
    has_value: bool,
    max: Option<String>,
    has_max: bool,
    image_url: Option<String>,
    has_image_url: bool,
    sensor_id: Option<String>,
    has_sensor_id: bool,
    type_field: Option<String>,
    has_type: bool,
    children: Option<Vec<Children>>,
}

spec fn acc_view(a: NodeAcc) -> GAcc {
    GAcc {
        id: a.id,
        has_id: a.has_id,
        text: opt_view(a.text),
        min: opt_view(a.min),
        has_min: a.has_min,
        value: opt_view(a.value),
        has_value: a.has_value,
        max: opt_view(a.max),
        has_max: a.has_max,
        image_url: opt_view(a.image_url),
        has_image_url: a.has_image_url,
        sensor_id: opt_view(a.sensor_id),
        has_sensor_id: a.has_sensor_id,
        type_field: opt_view(a.type_field),
        has_type: a.has_type,
        children: match a.children {
            Some(v) => Some(nodes_view(v@)),
            None => None,
        },
    }
}

fn finish_node(a: NodeAcc, end: usize) -> (r: Option<(Children, usize)>)
    ensures
        match spec_finish(acc_view(a), end as int) {
            Some(p) => r matches Some(q) && node_view(q.0) == p.0 && q.1 == p.1,
            None => r is None,
        },
{
    let text = match a.text {
        None => {
            return None;
        },
        Some(t) => t,
    };
    let children = match a.children {
        None => {
            return None;
        },
        Some(cs) => cs,
    };
    Some(
        (
            Children {
                id: a.id,
                text,
                min: a.min,
                value: a.value,
                max: a.max,
                image_url: a.image_url,
                sensor_id: a.sensor_id,
                type_field: a.type_field,
                children,
            },
            end,
        ),
    )
}

fn parse_node(s: &Vec<char>, j: usize, Ghost(fuel): Ghost<nat>) -> (r: Option<(Children, usize)>)
    requires
        j <= s.len(),
        fuel >= s.len() - j + 1,
    ensures
        match spec_node(s@, j as int, fuel) {
            Some(p) => r matches Some(q) && node_view(q.0) == p.0 && q.1 == p.1,
            None => r is None,
        },
        r matches Some(q) ==> j < q.1 <= s.len(),
    decreases s.len() - j, 2int,
{
    if !(j < s.len() && s[j] == '{') {
        return None;
    }
    let j1 = skip_ws(s, j + 1);
    let acc = NodeAcc {
        id: None,
        has_id: false,
        text: None,
        min: None,
        has_min: false,
        value: None,
        has_value: false,
        max: None,
        has_max: false,
        image_url: None,
        has_image_url: false,
        sensor_id: None,
        has_sensor_id: false,
        type_field: None,
        has_type: false,
        children: None,
    };
    proof {
        assert(acc_view(acc) == empty_gacc());
    }
    if j1 < s.len() && s[j1] == '}' {
        match finish_node(acc, j1 + 1) {
            None => None,
            Some(q) => Some(q),
        }
    } else {
        parse_fields(s, j1, acc, Ghost(fuel))
    }
}

#[verifier::rlimit(100)]
#[verifier::spinoff_prover]
fn parse_fields(s: &Vec<char>, j: usize, acc: NodeAcc, Ghost(fuel): Ghost<nat>) -> (r: Option<
    (Children, usize),
>)
    requires
        j <= s.len(),
        fuel >= s.len() - j + 1,
    ensures
        match spec_fields(s@, j as int, acc_view(acc), fuel) {
            Some(p) => r matches Some(q) && node_view(q.0) == p.0 && q.1 == p.1,
            None => r is None,
        },
        r matches Some(q) ==> j < q.1 <= s.len(),
    decreases s.len() - j, 1int,
{
    let (key, jk) = match parse_string(s, j) {
        None => {
            return None;
        },
        Some(p) => p,
    };
    let jc = skip_ws(s, jk);
    if !(jc < s.len() && s[jc] == ':') {
        return None;
    }
    let jv = skip_ws(s, jc + 1);
    if key == "Id".to_owned() {
        if acc.has_id {
            return None;
        }
        match parse_opt_i64(s, jv) {
            None => None,
            Some(p) => parse_after(s, p.1, NodeAcc { id: p.0, has_id: true, ..acc }, Ghost(fuel)),
        }
    } else if key == "Text".to_owned() {
        if acc.text.is_some() {
            return None;
        }
        match parse_string(s, jv) {
            None => None,
            Some(p) => parse_after(s, p.1, NodeAcc { text: Some(p.0), ..acc }, Ghost(fuel)),
        }
    } else if key == "Min".to_owned() {
        if acc.has_min {
            return None;
        }
        match parse_opt_string(s, jv) {
            None => None,
            Some(p) => parse_after(s, p.1, NodeAcc { min: p.0, has_min: true, ..acc }, Ghost(fuel)),
        }
    } else if key == "Value".to_owned() {
        if acc.has_value {
            return None;
        }
        match parse_opt_string(s, jv) {
            None => None,
            Some(p) => parse_after(
                s,
                p.1,
                NodeAcc { value: p.0, has_value: true, ..acc },
                Ghost(fuel),
            ),
        }
    } else if key == "Max".to_owned() {
        if acc.has_max {
            return None;
        }
        match parse_opt_string(s, jv) {
            None => None,
            Some(p) => parse_after(s, p.1, NodeAcc { max: p.0, has_max: true, ..acc }, Ghost(fuel)),
        }
    } else if key == "ImageUrl".to_owned() {
        if acc.has_image_url {
            return None;
        }
        match parse_opt_string(s, jv) {
            None => None,
            Some(p) => parse_after(
                s,
                p.1,
                NodeAcc { image_url: p.0, has_image_url: true, ..acc },
                Ghost(fuel),
            ),
        }
    } else if key == "SensorId".to_owned() {
        if acc.has_sensor_id {
            return None;
        }
        match parse_opt_string(s, jv) {
            None => None,
            Some(p) => parse_after(
                s,
                p.1,
                NodeAcc { sensor_id: p.0, has_sensor_id: true, ..acc },
                Ghost(fuel),
            ),
        }
    } else if key == "Type".to_owned() {
        if acc.has_type {
            return None;
        }
        match parse_opt_string(s, jv) {
            None => None,
            Some(p) => parse_after(
                s,
                p.1,
                NodeAcc { type_field: p.0, has_type: true, ..acc },
                Ghost(fuel),
            ),
        }
    } else if key == "Children".to_owned() {
        if acc.children.is_some() {
            return None;
        }
        let mut kids: Vec<Children> = Vec::new();
        match parse_elems(s, jv, &mut kids, Ghost((fuel - 1) as nat)) {
            None => None,
            Some(je) => {
                proof {
                    assert(nodes_view(kids@) == spec_elems(s@, jv as int, (fuel - 1) as nat)->Some_0.0);
                }
                parse_after(s, je, NodeAcc { children: Some(kids), ..acc }, Ghost(fuel))
            },
        }
    } else {
        match skip_value_rec(s, jv, Ghost((fuel - 1) as nat)) {
            None => None,
            Some(je) => parse_after(s, je, acc, Ghost(fuel)),
        }
    }
}

fn parse_after(s: &Vec<char>, je: usize, acc: NodeAcc, Ghost(fuel): Ghost<nat>) -> (r: Option<
    (Children, usize),
>)
    requires
        je <= s.len(),
        fuel >= s.len() - je + 2,
    ensures
        match spec_after(s@, je as int, acc_view(acc), fuel) {
            Some(p) => r matches Some(q) && node_view(q.0) == p.0 && q.1 == p.1,
            None => r is None,
        },
        r matches Some(q) ==> je < q.1 <= s.len(),
    decreases s.len() - je, 0int,
{
    let ja = skip_ws(s, je);
    if ja < s.len() && s[ja] == ',' {
        let jn = skip_ws(s, ja + 1);
        parse_fields(s, jn, acc, Ghost((fuel - 1) as nat))
    } else if ja < s.len() && s[ja] == '}' {
        finish_node(acc, ja + 1)
    } else {
        None
    }
}

fn parse_elems(s: &Vec<char>, j: usize, out: &mut Vec<Children>, Ghost(fuel): Ghost<nat>) -> (r:
    Option<usize>)
    requires
        j <= s.len(),
        fuel >= s.len() - j + 1,
        old(out)@.len() == 0,
    ensures
        match spec_elems(s@, j as int, fuel) {
            Some(p) => r matches Some(e) && e == p.1 && nodes_view(final(out)@) == p.0,
            None => r is None,
        },
        r matches Some(e) ==> j < e <= s.len(),
    decreases s.len() - j, 4int,
{
    if !(j < s.len() && s[j] == '[') {
        return None;
    }
    let j1 = skip_ws(s, j + 1);
    if j1 < s.len() && s[j1] == ']' {
        return Some(j1 + 1);
    }
    parse_elems_rest(s, j1, out, Ghost(fuel))
}

fn parse_elems_rest(
    s: &Vec<char>,
    j: usize,
    out: &mut Vec<Children>,
    Ghost(fuel): Ghost<nat>,
) -> (r: Option<usize>)
    requires
        j <= s.len(),
        fuel >= s.len() - j + 1,
    ensures
        match spec_elems_rest(s@, j as int, fuel) {
            Some(p) => r matches Some(e) && e == p.1 && nodes_view(final(out)@) == nodes_view(
                old(out)@,
            ) + p.0,
            None => r is None,
        },
        r matches Some(e) ==> j < e <= s.len(),
    decreases s.len() - j, 3int,
{
    let (node, je) = match parse_node(s, j, Ghost(fuel)) {
        None => {
            return None;
        },
        Some(p) => p,
    };
    let ghost mid = out@;
    out.push(node);
    proof {
        lemma_nodes_view_concat(mid, seq![node]);
        assert(out@ =~= mid + seq![node]);
        assert(seq![node].len() == 1);
        assert(seq![node][0] == node);
        assert(seq![node].drop_first() =~= Seq::<Children>::empty());
        assert(nodes_view(seq![node]) == seq![node_view(node)] + nodes_view(
            Seq::<Children>::empty(),
        ));
        assert(seq![node_view(node)] + Seq::<GNode>::empty() =~= seq![node_view(node)]);
    }
    let ja = skip_ws(s, je);
    if ja < s.len() && s[ja] == ',' {
        let jn = skip_ws(s, ja + 1);
        let r = parse_elems_rest(s, jn, out, Ghost((fuel - 1) as nat));
        proof {
            if spec_elems_rest(s@, j as int, fuel) matches Some(p) {
                let q = spec_elems_rest(s@, jn as int, (fuel - 1) as nat)->Some_0;
                assert(nodes_view(mid) + seq![node_view(node)] + q.0 =~= nodes_view(mid) + (
                seq![node_view(node)] + q.0));
            }
        }
        r
    } else if ja < s.len() && s[ja] == ']' {
        Some(ja + 1)
    } else {
        None
    }
}

proof fn lemma_nodes_view_concat(a: Seq<Children>, b: Seq<Children>)
    ensures
        nodes_view(a + b) == nodes_view(a) + nodes_view(b),
    decreases a.len(),
{
    if a.len() == 0 {
        assert(a + b =~= b);
        assert(nodes_view(a) + nodes_view(b) =~= nodes_view(b));
    } else {
        lemma_nodes_view_concat(a.drop_first(), b);
        assert((a + b)[0] == a[0]);
        assert((a + b).drop_first() =~= a.drop_first() + b);
        assert(seq![node_view(a[0])] + (nodes_view(a.drop_first()) + nodes_view(b)) =~= (
        seq![node_view(a[0])] + nodes_view(a.drop_first())) + nodes_view(b));
    }
}

/// Decodes the whole telemetry document: exactly `spec_decode_tree` of
/// its characters. The root's kind tag and sensor id, if present, are
/// read like any node's and then dropped, since the root is never a
/// metric.
pub fn decode_tree(body: &str) -> (r: Option<Root>)
    ensures
        r is Some <==> spec_decode_tree(body@) is Some,
        spec_decode_tree(body@) matches Some(g) ==> r matches Some(root) && root.id == g.id
            && root.text@ == g.text && opt_view(root.min) == g.min && opt_view(root.value)
            == g.value && opt_view(root.max) == g.max && opt_view(root.image_url) == g.image_url
            && nodes_view(root.children@) == g.children,
{
    let s = str_to_chars(body);
    let j = skip_ws(&s, 0);
    let (node, j2) = match parse_node(&s, j, Ghost((s@.len() + 1) as nat)) {
        None => {
            return None;
        },
        Some(p) => p,
    };
    let j3 = skip_ws(&s, j2);
    if j3 != s.len() {
        return None;
    }
    Some(
        Root {
            id: node.id,
            text: node.text,
            min: node.min,
            value: node.value,
            max: node.max,
            image_url: node.image_url,
            children: node.children,
        },
    )
}

} // verus!
