//! JSON parsing for captured response bodies.
//!
//! A step with an assignment key stores its response body, parsed as JSON,
//! in the response table.  The grammar is standard JSON, `\uXXXX` string
//! escapes (surrogate pairs included) and all.  Numbers keep their literal
//! spelling (see [`crate::value::Value::Num`]); object entries keep their
//! textual order, and a duplicated key is reachable only at its first
//! occurrence.
//!
//! The specification side ([`spec_parse`]) defines the grammar as total
//! recursive functions over the character sequence; the executable parser
//! returns exactly what the specification says, and succeeds if and only if
//! the whole input is one JSON value.

use vstd::prelude::*;

use crate::interpolate::is_digit;
use crate::value::{dv_arr, dv_obj, lemma_dv_arr, lemma_dv_obj, JsonV, Value};

verus! {

pub open spec fn is_ws(c: char) -> bool {
    c == ' ' || c == '\t' || c == '\n' || c == '\r'
}

/// Index of the first non-whitespace character at or after `i`.
pub open spec fn ws_end(s: Seq<char>, i: int) -> int
    decreases s.len() - i,
{
    if 0 <= i < s.len() && is_ws(s[i]) {
        ws_end(s, i + 1)
    } else {
        i
    }
}

pub proof fn lemma_ws_end(s: Seq<char>, i: int)
    requires
        0 <= i <= s.len(),
    ensures
        i <= ws_end(s, i) <= s.len(),
    decreases s.len() - i,
{
    if i < s.len() && is_ws(s[i]) {
        lemma_ws_end(s, i + 1);
    }
}

/// Index of the first non-digit character at or after `i`.
pub open spec fn digits_end(s: Seq<char>, i: int) -> int
    decreases s.len() - i,
{
    if 0 <= i < s.len() && is_digit(s[i]) {
        digits_end(s, i + 1)
    } else {
        i
    }
}

pub proof fn lemma_digits_end(s: Seq<char>, i: int)
    requires
        0 <= i <= s.len(),
    ensures
        i <= digits_end(s, i) <= s.len(),
    decreases s.len() - i,
{
    if i < s.len() && is_digit(s[i]) {
        lemma_digits_end(s, i + 1);
    }
}

pub open spec fn is_hex(c: char) -> bool {
    is_digit(c) || (97 <= c as u32 <= 102) || (65 <= c as u32 <= 70)
}

/// Numeric value of one hexadecimal digit.
pub open spec fn hex_val(c: char) -> int {
    if is_digit(c) {
        c as u32 - 48
    } else if 97 <= c as u32 <= 102 {
        c as u32 - 87
    } else {
        c as u32 - 55
    }
}

/// Do four hexadecimal digits stand at index `i` of `s`?
pub open spec fn hex4_at(s: Seq<char>, i: int) -> bool {
    i >= 0 && i + 4 <= s.len() && is_hex(s[i]) && is_hex(s[i + 1]) && is_hex(s[i + 2]) && is_hex(
        s[i + 3],
    )
}

/// Value of the four hexadecimal digits at index `i` of `s`.
pub open spec fn hex4_val(s: Seq<char>, i: int) -> int {
    hex_val(s[i]) * 4096 + hex_val(s[i + 1]) * 256 + hex_val(s[i + 2]) * 16 + hex_val(s[i + 3])
}

/// The character a single-letter string escape stands for; `\u` escapes are
/// handled separately in [`sp_string`].
pub open spec fn esc_char(c: char) -> Option<char> {
    if c == '"' {
        Some('"')
    } else if c == '\\' {
        Some('\\')
    } else if c == '/' {
        Some('/')
    } else if c == 'b' {
        Some('\u{0008}')
    } else if c == 'f' {
        Some('\u{000C}')
    } else if c == 'n' {
        Some('\n')
    } else if c == 'r' {
        Some('\r')
    } else if c == 't' {
        Some('\t')
    } else {
        None
    }
}

/// String contents from `i` (just after the opening quote) to the closing
/// quote: the decoded text and the index after the quote.
pub open spec fn sp_string(s: Seq<char>, i: int) -> Option<(Seq<char>, int)>
    decreases s.len() - i,
{
    if !(0 <= i < s.len()) {
        None
    } else if s[i] == '"' {
        Some((Seq::empty(), i + 1))
    } else if s[i] == '\\' {
        if i + 1 < s.len() {
            if s[i + 1] == 'u' {
                if hex4_at(s, i + 2) {
                    let u = hex4_val(s, i + 2);
                    if 0xD800 <= u < 0xDC00 {
                        // a high surrogate must pair with a following low one
                        if i + 7 < s.len() && s[i + 6] == '\\' && s[i + 7] == 'u' && hex4_at(
                            s,
                            i + 8,
                        ) {
                            let u2 = hex4_val(s, i + 8);
                            if 0xDC00 <= u2 < 0xE000 {
                                let cp = 0x10000 + (u - 0xD800) * 0x400 + (u2 - 0xDC00);
                                match sp_string(s, i + 12) {
                                    Some((r, j)) => Some((seq![((cp as u32) as char)] + r, j)),
                                    None => None,
                                }
                            } else {
                                None
                            }
                        } else {
                            None
                        }
                    } else if 0xDC00 <= u < 0xE000 {
                        // a lone low surrogate is not a scalar value
                        None
                    } else {
                        match sp_string(s, i + 6) {
                            Some((r, j)) => Some((seq![((u as u32) as char)] + r, j)),
                            None => None,
                        }
                    }
                } else {
                    None
                }
            } else {
                match esc_char(s[i + 1]) {
                    Some(c) => match sp_string(s, i + 2) {
                        Some((r, j)) => Some((seq![c] + r, j)),
                        None => None,
                    },
                    None => None,
                }
            }
        } else {
            None
        }
    } else if (s[i] as u32) < 32 {
        None
    } else {
        match sp_string(s, i + 1) {
            Some((r, j)) => Some((seq![s[i]] + r, j)),
            None => None,
        }
    }
}

/// End of the optional fraction part starting at `j`.
pub open spec fn frac_end(s: Seq<char>, j: int) -> Option<int> {
    if 0 <= j < s.len() && s[j] == '.' {
        if j + 1 < s.len() && is_digit(s[j + 1]) {
            Some(digits_end(s, j + 1))
        } else {
            None
        }
    } else {
        Some(j)
    }
}

/// End of the optional exponent part starting at `j`.
pub open spec fn exp_end(s: Seq<char>, j: int) -> Option<int> {
    if 0 <= j < s.len() && (s[j] == 'e' || s[j] == 'E') {
        if j + 1 < s.len() && (s[j + 1] == '+' || s[j + 1] == '-') {
            if j + 2 < s.len() && is_digit(s[j + 2]) {
                Some(digits_end(s, j + 2))
            } else {
                None
            }
        } else if j + 1 < s.len() && is_digit(s[j + 1]) {
            Some(digits_end(s, j + 1))
        } else {
            None
        }
    } else {
        Some(j)
    }
}

/// A number starting at `i`: its literal text and the index after it.
pub open spec fn sp_number(s: Seq<char>, i: int) -> Option<(Seq<char>, int)> {
    let j0 = if 0 <= i < s.len() && s[i] == '-' {
        i + 1
    } else {
        i
    };
    if 0 <= j0 < s.len() && is_digit(s[j0]) {
        let j1 = if s[j0] == '0' {
            j0 + 1
        } else {
            digits_end(s, j0)
        };
        match frac_end(s, j1) {
            Some(j2) => match exp_end(s, j2) {
                Some(j3) => Some((s.subrange(i, j3), j3)),
                None => None,
            },
            None => None,
        }
    } else {
        None
    }
}

/// Does the word `w` stand at index `i` of `s`?
pub open spec fn lit_at(s: Seq<char>, i: int, w: Seq<char>) -> bool {
    i >= 0 && i + w.len() <= s.len() && s.subrange(i, i + w.len()) == w
}

/// One JSON value at or after `i` (leading whitespace skipped): its model
/// and the index just after it.
pub open spec fn sp_value(s: Seq<char>, i: int) -> Option<(JsonV, int)>
    decreases s.len() - i, 0int,
{
    let k = ws_end(s, i);
    proof {
        if 0 <= i <= s.len() {
            lemma_ws_end(s, i);
        }
    }
    if !(0 <= k < s.len()) {
        None
    } else {
        let c = s[k];
        if c == '"' {
            match sp_string(s, k + 1) {
                Some((st, j)) => Some((JsonV::Str(st), j)),
                None => None,
            }
        } else if c == '{' {
            let k2 = ws_end(s, k + 1);
            if 0 <= k2 < s.len() && s[k2] == '}' {
                Some((JsonV::Obj(Seq::empty()), k2 + 1))
            } else {
                match sp_members(s, k + 1) {
                    Some((es, j)) => Some((JsonV::Obj(es), j)),
                    None => None,
                }
            }
        } else if c == '[' {
            let k2 = ws_end(s, k + 1);
            if 0 <= k2 < s.len() && s[k2] == ']' {
                Some((JsonV::Arr(Seq::empty()), k2 + 1))
            } else {
                match sp_elems(s, k + 1) {
                    Some((es, j)) => Some((JsonV::Arr(es), j)),
                    None => None,
                }
            }
        } else if c == 't' {
            if lit_at(s, k, "true"@) {
                Some((JsonV::Bool(true), k + 4))
            } else {
                None
            }
        } else if c == 'f' {
            if lit_at(s, k, "false"@) {
                Some((JsonV::Bool(false), k + 5))
            } else {
                None
            }
        } else if c == 'n' {
            if lit_at(s, k, "null"@) {
                Some((JsonV::Null, k + 4))
            } else {
                None
            }
        } else if c == '-' || is_digit(c) {
            match sp_number(s, k) {
                Some((txt, j)) => Some((JsonV::Num(txt), j)),
                None => None,
            }
        } else {
            None
        }
    }
}

/// One or more comma-separated array elements starting at or after `i`, up
/// to and including the closing `]`.
pub open spec fn sp_elems(s: Seq<char>, i: int) -> Option<(Seq<JsonV>, int)>
    decreases s.len() - i, 1int,
{
    match sp_value(s, i) {
        Some((v, j)) => {
            // parsing always advances, so this clamp never changes `j`;
            // it only lets the termination measure go through
            let j1 = if j <= i {
                i + 1
            } else {
                j
            };
            let k = ws_end(s, j1);
            proof {
                if 0 <= j1 <= s.len() {
                    lemma_ws_end(s, j1);
                }
            }
            if 0 <= k < s.len() && s[k] == ',' {
                match sp_elems(s, k + 1) {
                    Some((more, j2)) => Some((seq![v] + more, j2)),
                    None => None,
                }
            } else if 0 <= k < s.len() && s[k] == ']' {
                Some((seq![v], k + 1))
            } else {
                None
            }
        },
        None => None,
    }
}

/// One or more `"key": value` object members starting at or after `i`, up
/// to and including the closing `}`.
pub open spec fn sp_members(s: Seq<char>, i: int) -> Option<(Seq<(Seq<char>, JsonV)>, int)>
    decreases s.len() - i, 1int,
{
    let k0 = ws_end(s, i);
    proof {
        if 0 <= i <= s.len() {
            lemma_ws_end(s, i);
        }
    }
    if 0 <= k0 < s.len() && s[k0] == '"' {
        match sp_string(s, k0 + 1) {
            Some((key, j)) => {
                // the clamps here and below never change the index (parsing
                // always advances); they only let the termination measure
                // go through
                let j1 = if j <= i {
                    i + 1
                } else {
                    j
                };
                let k1 = ws_end(s, j1);
                proof {
                    if 0 <= j1 <= s.len() {
                        lemma_ws_end(s, j1);
                    }
                }
                if 0 <= k1 < s.len() && s[k1] == ':' {
                    match sp_value(s, k1 + 1) {
                        Some((v, j2)) => {
                            let j3 = if j2 <= i {
                                i + 1
                            } else {
                                j2
                            };
                            let k2 = ws_end(s, j3);
                            proof {
                                if 0 <= j3 <= s.len() {
                                    lemma_ws_end(s, j3);
                                }
                            }
                            if 0 <= k2 < s.len() && s[k2] == ',' {
                                match sp_members(s, k2 + 1) {
                                    Some((more, j4)) => Some((seq![(key, v)] + more, j4)),
                                    None => None,
                                }
                            } else if 0 <= k2 < s.len() && s[k2] == '}' {
                                Some((seq![(key, v)], k2 + 1))
                            } else {
                                None
                            }
                        },
                        None => None,
                    }
                } else {
                    None
                }
            },
            None => None,
        }
    } else {
        None
    }
}

/// The model of `s` parsed as one whole JSON document, if it is one.
pub open spec fn spec_parse(s: Seq<char>) -> Option<JsonV> {
    match sp_value(s, 0) {
        Some((v, j)) => if ws_end(s, j) == s.len() {
            Some(v)
        } else {
            None
        },
        None => None,
    }
}

fn is_ws_exec(c: char) -> (b: bool)
    ensures
        b == is_ws(c),
{
    c == ' ' || c == '\t' || c == '\n' || c == '\r'
}

fn is_digit_exec(c: char) -> (b: bool)
    ensures
        b == is_digit(c),
{
    let d = c as u32;
    48 <= d && d <= 57
}

fn skip_ws(s: &str, i: usize, n: usize) -> (r: usize)
    requires
        n == s@.len(),
        i <= n,
    ensures
        r as int == ws_end(s@, i as int),
        i <= r <= n,
    decreases n - i,
{
    let mut r = i;
    while r < n && is_ws_exec(s.get_char(r))
        invariant
            i <= r <= n,
            n == s@.len(),
            ws_end(s@, i as int) == ws_end(s@, r as int),
        decreases n - r,
    {
        r = r + 1;
    }
    r
}

fn scan_digits(s: &str, i: usize, n: usize) -> (r: usize)
    requires
        n == s@.len(),
        i <= n,
    ensures
        r as int == digits_end(s@, i as int),
        i <= r <= n,
{
    let mut r = i;
    while r < n && is_digit_exec(s.get_char(r))
        invariant
            i <= r <= n,
            n == s@.len(),
            digits_end(s@, i as int) == digits_end(s@, r as int),
        decreases n - r,
    {
        r = r + 1;
    }
    r
}

/// Relies on `char::from_u32`: `Some` exactly on Unicode scalar values
/// (below the surrogate range, or above it and at most `0x10FFFF`), and the
/// returned character has the given code.
#[verifier::external_body]
fn char_from_u32(u: u32) -> (r: Option<char>)
    ensures
        r is Some <==> (u < 0xD800 || (0xE000 <= u && u <= 0x10FFFF)),
        (match r {
            Some(c) => c == ((u as u32) as char),
            None => true,
        }),
{
    char::from_u32(u)
}

/// Numeric value of one hexadecimal digit.
fn hex_digit(c: char) -> (r: Option<u32>)
    ensures
        (match r {
            Some(d) => is_hex(c) && hex_val(c) == d as int && d < 16,
            None => !is_hex(c),
        }),
{
    let u = c as u32;
    if 48 <= u && u <= 57 {
        Some(u - 48)
    } else if 97 <= u && u <= 102 {
        Some(u - 87)
    } else if 65 <= u && u <= 70 {
        Some(u - 55)
    } else {
        None
    }
}

/// Value of the four hexadecimal digits at index `i` of `s`, if they are
/// ones.
fn hex4(s: &str, i: usize, n: usize) -> (r: Option<u32>)
    requires
        n == s@.len(),
        i <= n,
    ensures
        (match r {
            Some(u) => hex4_at(s@, i as int) && hex4_val(s@, i as int) == u as int && i + 4 <= n,
            None => !hex4_at(s@, i as int),
        }),
{
    if n - i < 4 {
        return None;
    }
    let d0 = match hex_digit(s.get_char(i)) {
        Some(d) => d,
        None => {
            return None;
        },
    };
    let d1 = match hex_digit(s.get_char(i + 1)) {
        Some(d) => d,
        None => {
            return None;
        },
    };
    let d2 = match hex_digit(s.get_char(i + 2)) {
        Some(d) => d,
        None => {
            return None;
        },
    };
    let d3 = match hex_digit(s.get_char(i + 3)) {
        Some(d) => d,
        None => {
            return None;
        },
    };
    Some(d0 * 4096 + d1 * 256 + d2 * 16 + d3)
}

/// The decoded text of a string escape, if the escape is accepted.
fn esc_str(e: char) -> (r: Option<&'static str>)
    ensures
        (match r {
            Some(d) => esc_char(e) matches Some(c2) && d@ == seq![c2],
            None => esc_char(e) is None,
        }),
{
    if e == '"' {
        proof {
            reveal_strlit("\"");
            assert("\""@ =~= seq!['"']);
        }
        Some("\"")
    } else if e == '\\' {
        proof {
            reveal_strlit("\\");
            assert("\\"@ =~= seq!['\\']);
        }
        Some("\\")
    } else if e == '/' {
        proof {
            reveal_strlit("/");
            assert("/"@ =~= seq!['/']);
        }
        Some("/")
    } else if e == 'b' {
        proof {
            reveal_strlit("\u{0008}");
            assert("\u{0008}"@ =~= seq!['\u{0008}']);
        }
        Some("\u{0008}")
    } else if e == 'f' {
        proof {
            reveal_strlit("\u{000C}");
            assert("\u{000C}"@ =~= seq!['\u{000C}']);
        }
        Some("\u{000C}")
    } else if e == 'n' {
        proof {
            reveal_strlit("\n");
            assert("\n"@ =~= seq!['\n']);
        }
        Some("\n")
    } else if e == 'r' {
        proof {
            reveal_strlit("\r");
            assert("\r"@ =~= seq!['\r']);
        }
        Some("\r")
    } else if e == 't' {
        proof {
            reveal_strlit("\t");
            assert("\t"@ =~= seq!['\t']);
        }
        Some("\t")
    } else {
        None
    }
}

fn parse_string_body(s: &str, i: usize, n: usize) -> (r: Option<(String, usize)>)
    requires
        n == s@.len(),
        i <= n,
    ensures
        (match r {
            Some(p) => sp_string(s@, i as int) == Some((p.0@, p.1 as int)) && i < p.1 <= n,
            None => sp_string(s@, i as int) is None,
        }),
    decreases n - i,
{
    if i >= n {
        return None;
    }
    let c = s.get_char(i);
    if c == '"' {
        Some((String::new(), i + 1))
    } else if c == '\\' {
        if i + 1 >= n {
            return None;
        }
        let e = s.get_char(i + 1);
        if e == 'u' {
            match hex4(s, i + 2, n) {
                Some(u) => {
                    if 0xD800 <= u && u < 0xDC00 {
                        if i + 6 < n && s.get_char(i + 6) == '\\' && i + 7 < n && s.get_char(i + 7)
                            == 'u' {
                            match hex4(s, i + 8, n) {
                                Some(u2) => {
                                    if 0xDC00 <= u2 && u2 < 0xE000 {
                                        let cp = 0x10000 + (u - 0xD800) * 0x400 + (u2 - 0xDC00);
                                        match char_from_u32(cp) {
                                            Some(ch) => match parse_string_body(s, i + 12, n) {
                                                Some((rest, j)) => {
                                                    let mut out = String::new();
                                                    crate::value::push_char(&mut out, ch);
                                                    out.append(rest.as_str());
                                                    proof {
                                                        assert(out@ =~= seq![ch] + rest@);
                                                    }
                                                    Some((out, j))
                                                },
                                                None => None,
                                            },
                                            None => None,
                                        }
                                    } else {
                                        None
                                    }
                                },
                                None => None,
                            }
                        } else {
                            None
                        }
                    } else if 0xDC00 <= u && u < 0xE000 {
                        None
                    } else {
                        match char_from_u32(u) {
                            Some(ch) => match parse_string_body(s, i + 6, n) {
                                Some((rest, j)) => {
                                    let mut out = String::new();
                                    crate::value::push_char(&mut out, ch);
                                    out.append(rest.as_str());
                                    proof {
                                        assert(out@ =~= seq![ch] + rest@);
                                    }
                                    Some((out, j))
                                },
                                None => None,
                            },
                            None => None,
                        }
                    }
                },
                None => None,
            }
        } else {
            match esc_str(e) {
                Some(ds) => match parse_string_body(s, i + 2, n) {
                    Some((rest, j)) => {
                        let mut out = String::from_str(ds);
                        out.append(rest.as_str());
                        Some((out, j))
                    },
                    None => None,
                },
                None => None,
            }
        }
    } else if (c as u32) < 32 {
        None
    } else {
        match parse_string_body(s, i + 1, n) {
            Some((rest, j)) => {
                let mut out = String::from_str(s.substring_char(i, i + 1));
                out.append(rest.as_str());
                proof {
                    assert(s@.subrange(i as int, i as int + 1) =~= seq![s@[i as int]]);
                }
                Some((out, j))
            },
            None => None,
        }
    }
}

fn parse_number(s: &str, i: usize, n: usize) -> (r: Option<(String, usize)>)
    requires
        n == s@.len(),
        i <= n,
    ensures
        (match r {
            Some(p) => sp_number(s@, i as int) == Some((p.0@, p.1 as int)) && i < p.1 <= n,
            None => sp_number(s@, i as int) is None,
        }),
{
    let j0 = if i < n && s.get_char(i) == '-' {
        i + 1
    } else {
        i
    };
    if j0 >= n {
        return None;
    }
    let c0 = s.get_char(j0);
    if !is_digit_exec(c0) {
        return None;
    }
    let j1 = if c0 == '0' {
        j0 + 1
    } else {
        scan_digits(s, j0, n)
    };
    proof {
        lemma_digits_end(s@, j0 as int + 1);
        assert(digits_end(s@, j0 as int) == digits_end(s@, j0 as int + 1));
    }
    let j2 = if j1 < n && s.get_char(j1) == '.' {
        if j1 + 1 < n && is_digit_exec(s.get_char(j1 + 1)) {
            scan_digits(s, j1 + 1, n)
        } else {
            return None;
        }
    } else {
        j1
    };
    let j3 = if j2 < n && (s.get_char(j2) == 'e' || s.get_char(j2) == 'E') {
        if j2 + 1 < n && (s.get_char(j2 + 1) == '+' || s.get_char(j2 + 1) == '-') {
            if j2 + 2 < n && is_digit_exec(s.get_char(j2 + 2)) {
                scan_digits(s, j2 + 2, n)
            } else {
                return None;
            }
        } else if j2 + 1 < n && is_digit_exec(s.get_char(j2 + 1)) {
            scan_digits(s, j2 + 1, n)
        } else {
            return None;
        }
    } else {
        j2
    };
    let txt = String::from_str(s.substring_char(i, j3));
    Some((txt, j3))
}

/// Does the word `w` stand at index `i` of `s`?
fn lit_at_exec(s: &str, i: usize, n: usize, w: &str) -> (b: bool)
    requires
        n == s@.len(),
        i <= n,
    ensures
        b == lit_at(s@, i as int, w@),
{
    let wn = w.unicode_len();
    if wn > n - i {
        return false;
    }
    let mut m: usize = 0;
    while m < wn
        invariant
            m <= wn,
            wn == w@.len(),
            n == s@.len(),
            i + wn <= n,
            forall|q: int| 0 <= q < m as int ==> s@[i as int + q] == w@[q],
        decreases wn - m,
    {
        if s.get_char(i + m) != w.get_char(m) {
            proof {
                assert(s@.subrange(i as int, i as int + w@.len())[m as int] == s@[i as int
                    + m as int]);
            }
            return false;
        }
        m = m + 1;
    }
    proof {
        assert(s@.subrange(i as int, i as int + w@.len()) =~= w@);
    }
    true
}

/// Parses one JSON value at or after `i`; returns it with the index just
/// after it.
fn parse_value(s: &str, i: usize, n: usize) -> (r: Option<(Value, usize)>)
    requires
        n == s@.len(),
        i <= n,
    ensures
        (match r {
            Some(p) => sp_value(s@, i as int) == Some((p.0.dv(), p.1 as int)) && i < p.1 <= n,
            None => sp_value(s@, i as int) is None,
        }),
    decreases n - i, 0int,
{
    let k = skip_ws(s, i, n);
    if k >= n {
        return None;
    }
    let c = s.get_char(k);
    if c == '"' {
        match parse_string_body(s, k + 1, n) {
            Some((st, j)) => Some((Value::Str(st), j)),
            None => None,
        }
    } else if c == '{' {
        let k2 = skip_ws(s, k + 1, n);
        if k2 < n && s.get_char(k2) == '}' {
            proof {
                assert(dv_obj(Seq::<(String, Value)>::empty()) =~= Seq::<(
                    Seq<char>,
                    JsonV,
                )>::empty());
            }
            Some((Value::Obj(Vec::new()), k2 + 1))
        } else {
            match parse_members(s, k + 1, n) {
                Some((es, j)) => Some((Value::Obj(es), j)),
                None => None,
            }
        }
    } else if c == '[' {
        let k2 = skip_ws(s, k + 1, n);
        if k2 < n && s.get_char(k2) == ']' {
            proof {
                assert(dv_arr(Seq::<Value>::empty()) =~= Seq::<JsonV>::empty());
            }
            Some((Value::Arr(Vec::new()), k2 + 1))
        } else {
            match parse_elems(s, k + 1, n) {
                Some((es, j)) => Some((Value::Arr(es), j)),
                None => None,
            }
        }
    } else if c == 't' {
        if lit_at_exec(s, k, n, "true") {
            proof {
                reveal_strlit("true");
            }
            Some((Value::Bool(true), k + 4))
        } else {
            None
        }
    } else if c == 'f' {
        if lit_at_exec(s, k, n, "false") {
            proof {
                reveal_strlit("false");
            }
            Some((Value::Bool(false), k + 5))
        } else {
            None
        }
    } else if c == 'n' {
        if lit_at_exec(s, k, n, "null") {
            proof {
                reveal_strlit("null");
            }
            Some((Value::Null, k + 4))
        } else {
            None
        }
    } else if c == '-' || is_digit_exec(c) {
        match parse_number(s, k, n) {
            Some((txt, j)) => Some((Value::Num(txt), j)),
            None => None,
        }
    } else {
        None
    }
}

/// Parses the elements of a non-empty array, including the closing `]`.
fn parse_elems(s: &str, i: usize, n: usize) -> (r: Option<(Vec<Value>, usize)>)
    requires
        n == s@.len(),
        i <= n,
    ensures
        (match r {
            Some(p) => sp_elems(s@, i as int) == Some((dv_arr(p.0@), p.1 as int)) && i < p.1
                <= n,
            None => sp_elems(s@, i as int) is None,
        }),
    decreases n - i, 1int,
{
    match parse_value(s, i, n) {
        Some((v, j)) => {
            let k = skip_ws(s, j, n);
            if k < n && s.get_char(k) == ',' {
                match parse_elems(s, k + 1, n) {
                    Some((es, j2)) => {
                        let mut es2 = es;
                        es2.insert(0, v);
                        proof {
                            lemma_dv_arr(es@);
                            lemma_dv_arr(es2@);
                            assert(es2@ =~= seq![v] + es@);
                            assert(dv_arr(es2@) =~= seq![v.dv()] + dv_arr(es@));
                        }
                        Some((es2, j2))
                    },
                    None => None,
                }
            } else if k < n && s.get_char(k) == ']' {
                let mut es: Vec<Value> = Vec::new();
                es.push(v);
                proof {
                    lemma_dv_arr(es@);
                    assert(dv_arr(es@) =~= seq![v.dv()]);
                }
                Some((es, k + 1))
            } else {
                None
            }
        },
        None => None,
    }
}

/// Parses the members of a non-empty object, including the closing `}`.
fn parse_members(s: &str, i: usize, n: usize) -> (r: Option<(Vec<(String, Value)>, usize)>)
    requires
        n == s@.len(),
        i <= n,
    ensures
        (match r {
            Some(p) => sp_members(s@, i as int) == Some((dv_obj(p.0@), p.1 as int)) && i < p.1
                <= n,
            None => sp_members(s@, i as int) is None,
        }),
    decreases n - i, 1int,
{
    let k0 = skip_ws(s, i, n);
    if k0 >= n {
        return None;
    }
    if s.get_char(k0) != '"' {
        return None;
    }
    match parse_string_body(s, k0 + 1, n) {
        Some((key, j)) => {
            let k1 = skip_ws(s, j, n);
            if k1 >= n {
                return None;
            }
            if s.get_char(k1) != ':' {
                return None;
            }
            match parse_value(s, k1 + 1, n) {
                Some((v, j2)) => {
                    let k2 = skip_ws(s, j2, n);
                    if k2 < n && s.get_char(k2) == ',' {
                        match parse_members(s, k2 + 1, n) {
                            Some((es, j4)) => {
                                let ghost kv = (key@, v.dv());
                                let mut es2 = es;
                                es2.insert(0, (key, v));
                                proof {
                                    lemma_dv_obj(es@);
                                    lemma_dv_obj(es2@);
                                    assert(dv_obj(es2@) =~= seq![kv] + dv_obj(es@));
                                }
                                Some((es2, j4))
                            },
                            None => None,
                        }
                    } else if k2 < n && s.get_char(k2) == '}' {
                        let ghost kv = (key@, v.dv());
                        let mut es: Vec<(String, Value)> = Vec::new();
                        es.push((key, v));
                        proof {
                            lemma_dv_obj(es@);
                            assert(dv_obj(es@) =~= seq![kv]);
                        }
                        Some((es, k2 + 1))
                    } else {
                        None
                    }
                },
                None => None,
            }
        },
        None => None,
    }
}

/// Parses `s` as one whole JSON document.  Returns `None` exactly when `s`
/// is not one.
pub fn parse_json(s: &str) -> (r: Option<Value>)
    ensures
        (match r {
            Some(v) => spec_parse(s@) == Some(v.dv()),
            None => spec_parse(s@) is None,
        }),
{
    let n = s.unicode_len();
    match parse_value(s, 0, n) {
        Some((v, j)) => {
            let k = skip_ws(s, j, n);
            if k == n {
                Some(v)
            } else {
                None
            }
        },
        None => None,
    }
}

} // verus!
