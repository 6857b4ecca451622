//! Replacement values.
//!
//! A placeholder accepts anything that can be rendered two ways: a plain
//! display form and a debug form. `Value` is that capability as a concrete
//! type, with adapters for the scalar and string shapes callers use:
//! integers, text, booleans, characters, decimal numbers held as digit text,
//! and a custom pair of renderings for everything else.
//!
//! A `Decimal` carries a number as its digit text (`"99.9999"`). Precision
//! formatting rounds that text decimally, ties to the even digit, which is
//! what makes `{:.2}` style placeholders work without any floating point in
//! the engine.

use vstd::prelude::*;
use crate::chars::char_repeat;
use crate::chars::find_from;
use crate::chars::repeat_char;
use crate::chars::str_to_chars;
use crate::chars::subvec;
use crate::chars::push_all;
use crate::numeric::all_digits;
use crate::numeric::dec_digits;
use crate::numeric::digit_char;
use crate::numeric::digit_val;
use crate::numeric::is_digit;
use crate::numeric::char_digit_value;
use crate::numeric::digit_char_exec;
use crate::numeric::is_digit_exec;
use crate::numeric::scan_for_two;
use crate::numeric::all_digits_range;
use crate::numeric::lemma_find_single;
use crate::numeric::lemma_find_none;

verus! {

/// A value a placeholder can be replaced with.
#[derive(Debug, Clone)]
pub enum Value {
    /// A signed integer.
    Int(i64),
    /// An unsigned integer.
    UInt(u64),
    /// Plain text.
    Str(String),
    /// A boolean.
    Bool(bool),
    /// A single character.
    Char(char),
    /// A number held as decimal digit text, optionally signed and with a
    /// fractional part: precision formatting rounds it decimally.
    Decimal(String),
    /// Caller-supplied display and debug renderings.
    Custom { display: String, debug: String },
}

// --- display rendering ---

/// Decimal representation of a signed integer.
pub open spec fn int_digits(i: int) -> Seq<char> {
    if i < 0 {
        seq!['-'] + dec_digits((-i) as nat)
    } else {
        dec_digits(i as nat)
    }
}

/// The display rendering of a value.
pub open spec fn spec_display(v: Value) -> Seq<char> {
    match v {
        Value::Int(i) => int_digits(i as int),
        Value::UInt(u) => dec_digits(u as nat),
        Value::Str(s) => s@,
        Value::Bool(b) => if b {
            "true"@
        } else {
            "false"@
        },
        Value::Char(c) => seq![c],
        Value::Decimal(t) => t@,
        Value::Custom { display, debug } => display@,
    }
}

// --- debug rendering ---

/// Hexadecimal digit character for a value below sixteen.
pub open spec fn hex_char(d: nat) -> char {
    if d < 10 {
        digit_char(d)
    } else if d == 10 {
        'a'
    } else if d == 11 {
        'b'
    } else if d == 12 {
        'c'
    } else if d == 13 {
        'd'
    } else if d == 14 {
        'e'
    } else {
        'f'
    }
}

/// Hexadecimal representation of `n`, lower case, without leading zeros.
pub open spec fn hex_digits(n: nat) -> Seq<char>
    decreases n,
{
    if n < 16 {
        seq![hex_char(n)]
    } else {
        hex_digits(n / 16) + seq![hex_char((n % 16) as nat)]
    }
}

/// Debug escape of one character. Inside string renderings the double quote
/// is escaped; inside character renderings the single quote is. Control
/// characters become `\u{..}` escapes.
pub open spec fn escape_char(c: char, in_str: bool) -> Seq<char> {
    if c == '\\' {
        seq!['\\', '\\']
    } else if c == '\n' {
        seq!['\\', 'n']
    } else if c == '\r' {
        seq!['\\', 'r']
    } else if c == '\t' {
        seq!['\\', 't']
    } else if in_str && c == '"' {
        seq!['\\', '"']
    } else if !in_str && c == '\'' {
        seq!['\\', '\'']
    } else if (c as nat) < 32 || (c as nat) == 127 {
        seq!['\\', 'u', '{'] + hex_digits(c as nat) + seq!['}']
    } else {
        seq![c]
    }
}

/// Debug escape of the characters of `s` from index `i` on.
pub open spec fn escape_from(s: Seq<char>, i: int, in_str: bool) -> Seq<char>
    decreases s.len() - i,
    when 0 <= i
{
    if i < s.len() {
        escape_char(s[i], in_str) + escape_from(s, i + 1, in_str)
    } else {
        Seq::empty()
    }
}

/// Debug escape of a whole text.
pub open spec fn escape_text(s: Seq<char>, in_str: bool) -> Seq<char> {
    escape_from(s, 0, in_str)
}

/// The debug rendering of a value: text is quoted and escaped, a character
/// is quoted, a custom value supplies its own, everything else renders as
/// display.
pub open spec fn spec_debug(v: Value) -> Seq<char> {
    match v {
        Value::Str(s) => seq!['"'] + escape_text(s@, true) + seq!['"'],
        Value::Char(c) => seq!['\''] + escape_text(seq![c], false) + seq!['\''],
        Value::Custom { display, debug } => debug@,
        _ => spec_display(v),
    }
}

// --- precision rendering ---

/// `s` cut down to at most `p` characters.
pub open spec fn take_prec(s: Seq<char>, p: nat) -> Seq<char> {
    if p < s.len() {
        s.take(p as int)
    } else {
        s
    }
}

/// Decompose decimal digit text into sign, integer digits and fractional
/// digits, if it has that shape.
pub open spec fn decimal_shape(s: Seq<char>) -> Option<(bool, Seq<char>, Seq<char>)> {
    let neg = s.len() > 0 && s[0] == '-';
    let signed = s.len() > 0 && (s[0] == '-' || s[0] == '+');
    let b = if signed {
        s.skip(1)
    } else {
        s
    };
    match find_from(b, seq!['.'], 0) {
        None => if b.len() > 0 && all_digits(b) {
            Some((neg, b, Seq::empty()))
        } else {
            None
        },
        Some(i) => {
            let ip = b.take(i);
            let fp = b.skip(i + 1);
            if ip.len() > 0 && all_digits(ip) && all_digits(fp) {
                Some((neg, ip, fp))
            } else {
                None
            }
        },
    }
}

/// Digit text incremented by one, with carry; "99" becomes "100".
pub open spec fn inc_digits(ds: Seq<char>) -> Seq<char>
    decreases ds.len(),
{
    if ds.len() == 0 {
        seq!['1']
    } else if ds[ds.len() - 1] == '9' {
        inc_digits(ds.take(ds.len() - 1)) + seq!['0']
    } else {
        ds.take(ds.len() - 1) + seq![digit_char((digit_val(ds[ds.len() - 1]) + 1) as nat)]
    }
}

/// Incrementing digit text lengthens it by at most one digit.
pub proof fn lemma_inc_digits_len(ds: Seq<char>)
    ensures
        ds.len() <= inc_digits(ds).len() <= ds.len() + 1,
    decreases ds.len(),
{
    if ds.len() > 0 && ds[ds.len() - 1] == '9' {
        lemma_inc_digits_len(ds.take(ds.len() - 1));
    }
}

/// Whether dropping the fractional digits after position `p` rounds up:
/// by the first dropped digit, with ties going to the even neighbour.
pub open spec fn round_up_decision(fp: Seq<char>, p: int, last_kept: char) -> bool {
    let d = fp[p];
    if !('5' <= d) {
        false
    } else if '5' < d {
        true
    } else if exists|k: int| p < k < fp.len() && fp[k] != '0' {
        true
    } else {
        digit_val(last_kept) % 2 == 1
    }
}

/// Sign prefix of a rendering.
pub open spec fn sign_seq(neg: bool) -> Seq<char> {
    if neg {
        seq!['-']
    } else {
        Seq::empty()
    }
}

/// Decimal digit text rounded to exactly `p` fractional digits: padded with
/// zeros when short, rounded half to even when long.
pub open spec fn round_decimal(neg: bool, ip: Seq<char>, fp: Seq<char>, p: nat) -> Seq<char> {
    if p >= fp.len() {
        sign_seq(neg) + ip + (if p > 0 {
            seq!['.'] + fp + char_repeat('0', (p - fp.len()) as nat)
        } else {
            Seq::empty()
        })
    } else {
        let digits = ip + fp.take(p as int);
        let up = round_up_decision(fp, p as int, digits[digits.len() - 1]);
        let digits2 = if up {
            inc_digits(digits)
        } else {
            digits
        };
        sign_seq(neg) + digits2.take(digits2.len() - p) + (if p > 0 {
            seq!['.'] + digits2.skip(digits2.len() - p)
        } else {
            Seq::empty()
        })
    }
}

/// The rendering of a value under a precision: integers ignore it, decimal
/// digit text is rounded to it, all other text is cut down to it.
pub open spec fn spec_display_prec(v: Value, p: nat) -> Seq<char> {
    match v {
        Value::Int(_) => spec_display(v),
        Value::UInt(_) => spec_display(v),
        Value::Decimal(t) => match decimal_shape(t@) {
            Some(sh) => round_decimal(sh.0, sh.1, sh.2, p),
            None => take_prec(t@, p),
        },
        _ => take_prec(spec_display(v), p),
    }
}

// --- exec rendering ---

/// Decimal representation of `n`.
pub(crate) fn u64_to_chars(n: u64) -> (r: Vec<char>)
    ensures
        r@ == dec_digits(n as nat),
    decreases n,
{
    if n < 10 {
        let mut out: Vec<char> = Vec::new();
        out.push(digit_char_exec((n % 10) as usize));
        proof {
            assert(out@ =~= dec_digits(n as nat));
        }
        out
    } else {
        let mut out = u64_to_chars(n / 10);
        out.push(digit_char_exec((n % 10) as usize));
        proof {
            assert(out@ =~= dec_digits(n as nat));
        }
        out
    }
}

/// Hexadecimal digit character for a value below sixteen.
fn hex_char_exec(d: u32) -> (c: char)
    requires
        d < 16,
    ensures
        c == hex_char(d as nat),
{
    if d < 10 {
        digit_char_exec(d as usize)
    } else if d == 10 {
        'a'
    } else if d == 11 {
        'b'
    } else if d == 12 {
        'c'
    } else if d == 13 {
        'd'
    } else if d == 14 {
        'e'
    } else {
        'f'
    }
}

/// Hexadecimal representation of `n`.
fn u32_to_hex_chars(n: u32) -> (r: Vec<char>)
    ensures
        r@ == hex_digits(n as nat),
    decreases n,
{
    if n < 16 {
        let mut out: Vec<char> = Vec::new();
        out.push(hex_char_exec(n % 16));
        proof {
            assert(out@ =~= hex_digits(n as nat));
        }
        out
    } else {
        let mut out = u32_to_hex_chars(n / 16);
        out.push(hex_char_exec(n % 16));
        proof {
            assert(out@ =~= hex_digits(n as nat));
        }
        out
    }
}

/// Debug escape of one character.
fn escape_char_exec(c: char, in_str: bool) -> (r: Vec<char>)
    ensures
        r@ == escape_char(c, in_str),
{
    let mut out: Vec<char> = Vec::new();
    if c == '\\' {
        out.push('\\');
        out.push('\\');
    } else if c == '\n' {
        out.push('\\');
        out.push('n');
    } else if c == '\r' {
        out.push('\\');
        out.push('r');
    } else if c == '\t' {
        out.push('\\');
        out.push('t');
    } else if in_str && c == '"' {
        out.push('\\');
        out.push('"');
    } else if !in_str && c == '\'' {
        out.push('\\');
        out.push('\'');
    } else if (c as u32) < 32 || (c as u32) == 127 {
        out.push('\\');
        out.push('u');
        out.push('{');
        let hex = u32_to_hex_chars(c as u32);
        push_all(&mut out, &hex);
        out.push('}');
    } else {
        out.push(c);
    }
    proof {
        assert(out@ =~= escape_char(c, in_str));
    }
    out
}

/// Debug escape of a whole text.
fn escape_text_exec(v: &Vec<char>, in_str: bool) -> (r: Vec<char>)
    ensures
        r@ == escape_text(v@, in_str),
{
    let mut out: Vec<char> = Vec::new();
    let mut i: usize = 0;
    loop
        invariant
            i <= v@.len(),
            escape_text(v@, in_str) == out@ + escape_from(v@, i as int, in_str),
        decreases v@.len() - i,
    {
        if i == v.len() {
            proof {
                assert(out@ + escape_from(v@, i as int, in_str) =~= out@);
            }
            return out;
        }
        let e = escape_char_exec(v[i], in_str);
        let ghost prev = out@;
        push_all(&mut out, &e);
        i = i + 1;
        proof {
            assert(prev + (escape_char(v@[i - 1], in_str) + escape_from(v@, i as int, in_str))
                =~= out@ + escape_from(v@, i as int, in_str));
        }
    }
}

/// `v` cut down to at most `p` characters.
pub(crate) fn truncate_chars(v: &Vec<char>, p: usize) -> (r: Vec<char>)
    ensures
        r@ == take_prec(v@, p as nat),
{
    if p < v.len() {
        subvec(v, 0, p)
    } else {
        let r = subvec(v, 0, v.len());
        proof {
            assert(r@ =~= v@);
        }
        r
    }
}

/// The display rendering of `v`.
pub(crate) fn render_display(v: &Value) -> (r: Vec<char>)
    ensures
        r@ == spec_display(*v),
{
    match v {
        Value::Int(i) => {
            let iv = *i;
            if iv >= 0 {
                u64_to_chars(iv as u64)
            } else {
                let mag: u64 = ((-(iv + 1)) as u64) + 1;
                let mut out: Vec<char> = Vec::new();
                out.push('-');
                let ds = u64_to_chars(mag);
                push_all(&mut out, &ds);
                proof {
                    assert(mag as nat == -(iv as int));
                    assert(out@ =~= int_digits(iv as int));
                }
                out
            }
        },
        Value::UInt(u) => u64_to_chars(*u),
        Value::Str(s) => str_to_chars(s.as_str()),
        Value::Bool(b) => if *b {
            str_to_chars("true")
        } else {
            str_to_chars("false")
        },
        Value::Char(c) => {
            let mut out: Vec<char> = Vec::new();
            out.push(*c);
            proof {
                assert(out@ =~= seq![*c]);
            }
            out
        },
        Value::Decimal(t) => str_to_chars(t.as_str()),
        Value::Custom { display, .. } => str_to_chars(display.as_str()),
    }
}

/// The debug rendering of `v`.
pub(crate) fn render_debug(v: &Value) -> (r: Vec<char>)
    ensures
        r@ == spec_debug(*v),
{
    match v {
        Value::Str(s) => {
            let sv = str_to_chars(s.as_str());
            let body = escape_text_exec(&sv, true);
            let mut out: Vec<char> = Vec::new();
            out.push('"');
            push_all(&mut out, &body);
            out.push('"');
            proof {
                assert(out@ =~= seq!['"'] + escape_text(s@, true) + seq!['"']);
            }
            out
        },
        Value::Char(c) => {
            let mut cv: Vec<char> = Vec::new();
            cv.push(*c);
            proof {
                assert(cv@ =~= seq![*c]);
            }
            let body = escape_text_exec(&cv, false);
            let mut out: Vec<char> = Vec::new();
            out.push('\'');
            push_all(&mut out, &body);
            out.push('\'');
            proof {
                assert(out@ =~= seq!['\''] + escape_text(seq![*c], false) + seq!['\'']);
            }
            out
        },
        Value::Custom { debug, .. } => str_to_chars(debug.as_str()),
        _ => render_display(v),
    }
}

// --- exec precision rendering ---

/// Decompose digit text into sign, integer digits and fractional digits.
fn decimal_shape_exec(v: &Vec<char>) -> (r: Option<(bool, Vec<char>, Vec<char>)>)
    ensures
        match r {
            Some(t) => decimal_shape(v@) == Some((t.0, t.1@, t.2@)),
            None => decimal_shape(v@) is None,
        },
{
    let n = v.len();
    let signed = n > 0 && (v[0] == '-' || v[0] == '+');
    let neg = n > 0 && v[0] == '-';
    let start: usize = if signed {
        1
    } else {
        0
    };
    let ghost b = if signed {
        v@.skip(1)
    } else {
        v@
    };
    proof {
        assert(b =~= v@.subrange(start as int, n as int));
        assert(forall|k: int| 0 <= k < b.len() ==> b[k] == v@[start + k]);
    }
    let di = scan_for_two(v, start, n, '.', '.');
    proof {
        match di {
            Some(j) => {
                lemma_find_single(b, '.', j - start);
            },
            None => {
                lemma_find_none(b, '.');
            },
        }
    }
    match di {
        Some(j) => {
            proof {
                let sj = find_from(b, seq!['.'], 0).unwrap();
                assert(b[sj] == '.');
                assert(sj == j - start) by {
                    if sj < j - start {
                        assert(v@[start + sj] != '.');
                    }
                    if sj > j - start {
                        assert(b[j - start] == '.');
                    }
                }
            }
            let ip_ok = j > start && all_digits_range(v, start, j);
            let fp_ok = all_digits_range(v, j + 1, n);
            proof {
                assert(b.take(j - start) =~= v@.subrange(start as int, j as int));
                assert(b.skip(j - start + 1) =~= v@.subrange(j + 1, n as int));
            }
            if ip_ok && fp_ok {
                let ip = subvec(v, start, j);
                let fp = subvec(v, j + 1, n);
                Some((neg, ip, fp))
            } else {
                None
            }
        },
        None => {
            let ok = n - start > 0 && all_digits_range(v, start, n);
            proof {
                assert(b =~= v@.subrange(start as int, n as int));
            }
            if ok {
                let ip = subvec(v, start, n);
                let fp: Vec<char> = Vec::new();
                proof {
                    assert(fp@ =~= Seq::<char>::empty());
                }
                Some((neg, ip, fp))
            } else {
                None
            }
        },
    }
}

/// Digit text incremented by one.
fn inc_digits_exec(ds: &Vec<char>) -> (r: Vec<char>)
    requires
        all_digits(ds@),
    ensures
        r@ == inc_digits(ds@),
    decreases ds@.len(),
{
    let n = ds.len();
    if n == 0 {
        let mut out: Vec<char> = Vec::new();
        out.push('1');
        proof {
            assert(out@ =~= inc_digits(ds@));
        }
        out
    } else if ds[n - 1] == '9' {
        let head = subvec(ds, 0, n - 1);
        proof {
            assert(forall|k: int| 0 <= k < head@.len() ==> #[trigger] head@[k] == ds@[k]);
        }
        let mut out = inc_digits_exec(&head);
        out.push('0');
        proof {
            assert(out@ =~= inc_digits(ds@));
        }
        out
    } else {
        let mut out = subvec(ds, 0, n - 1);
        let c = ds[n - 1];
        proof {
            assert(is_digit(ds@[n - 1]));
        }
        let d = char_digit_value(c);
        out.push(digit_char_exec(d + 1));
        proof {
            assert(out@ =~= inc_digits(ds@));
        }
        out
    }
}

/// Whether cutting `fp` after `p` digits rounds up.
fn round_up_exec(fp: &Vec<char>, p: usize, last_kept: char) -> (r: bool)
    requires
        p < fp@.len(),
        is_digit(last_kept),
    ensures
        r == round_up_decision(fp@, p as int, last_kept),
{
    let d = fp[p];
    if !('5' <= d) {
        false
    } else if '5' < d {
        true
    } else {
        let n = fp.len();
        let mut k: usize = p + 1;
        while k < n
            invariant
                p < k <= n,
                n == fp@.len(),
                '5' <= fp@[p as int],
                !('5' < fp@[p as int]),
                forall|j: int| p < j < k ==> fp@[j] == '0',
            decreases n - k,
        {
            if fp[k] != '0' {
                proof {
                    assert(p < k < fp@.len() && fp@[k as int] != '0');
                }
                return true;
            }
            k = k + 1;
        }
        char_digit_value(last_kept) % 2 == 1
    }
}

/// Round digit text to exactly `p` fractional digits.
fn round_decimal_exec(neg: bool, ip: &Vec<char>, fp: &Vec<char>, p: usize) -> (r: Vec<char>)
    requires
        ip@.len() >= 1,
        all_digits(ip@),
        all_digits(fp@),
    ensures
        r@ == round_decimal(neg, ip@, fp@, p as nat),
{
    let mut out: Vec<char> = Vec::new();
    if neg {
        out.push('-');
    }
    proof {
        assert(out@ =~= sign_seq(neg));
    }
    if p >= fp.len() {
        push_all(&mut out, ip);
        if p > 0 {
            out.push('.');
            push_all(&mut out, fp);
            let zeros = repeat_char('0', p - fp.len());
            push_all(&mut out, &zeros);
        }
        proof {
            assert(out@ =~= round_decimal(neg, ip@, fp@, p as nat));
        }
        out
    } else {
        let keep = subvec(fp, 0, p);
        let mut digits = subvec(ip, 0, ip.len());
        proof {
            assert(digits@ =~= ip@);
        }
        push_all(&mut digits, &keep);
        proof {
            assert(digits@ =~= ip@ + fp@.take(p as int));
        }
        let last = digits[digits.len() - 1];
        proof {
            if p > 0 {
                assert(digits@[digits@.len() - 1] == fp@[p - 1]);
            } else {
                assert(digits@[digits@.len() - 1] == ip@[ip@.len() - 1]);
            }
        }
        let up = round_up_exec(fp, p, last);
        proof {
            assert forall|k: int| 0 <= k < digits@.len() implies is_digit(
                #[trigger] digits@[k],
            ) by {
                if k >= ip@.len() {
                    assert(digits@[k] == fp@[k - ip@.len()]);
                }
            }
        }
        let digits2 = if up {
            inc_digits_exec(&digits)
        } else {
            let d = subvec(&digits, 0, digits.len());
            proof {
                assert(d@ =~= digits@);
            }
            d
        };
        proof {
            lemma_inc_digits_len(digits@);
        }
        let cut = digits2.len() - p;
        let int_part = subvec(&digits2, 0, cut);
        push_all(&mut out, &int_part);
        if p > 0 {
            out.push('.');
            let frac_part = subvec(&digits2, cut, digits2.len());
            push_all(&mut out, &frac_part);
        }
        proof {
            assert(out@ =~= round_decimal(neg, ip@, fp@, p as nat));
        }
        out
    }
}

/// The rendering of `v` under precision `p`.
pub(crate) fn render_display_prec(v: &Value, p: usize) -> (r: Vec<char>)
    ensures
        r@ == spec_display_prec(*v, p as nat),
{
    match v {
        Value::Int(_) => render_display(v),
        Value::UInt(_) => render_display(v),
        Value::Decimal(t) => {
            let tv = str_to_chars(t.as_str());
            match decimal_shape_exec(&tv) {
                Some((neg, ip, fp)) => round_decimal_exec(neg, &ip, &fp, p),
                None => truncate_chars(&tv, p),
            }
        },
        _ => {
            let d = render_display(v);
            truncate_chars(&d, p)
        },
    }
}

} // verus!

