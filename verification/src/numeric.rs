//! Numeric text: decimal digit strings, integer parsing and the grammar of
//! number-shaped text.
//!
//! The formatter decides zero padding and sign placement by looking at the
//! rendered text alone, asking "does this text denote a number" in the sense
//! of the standard integer and floating-point parsers. The predicates here
//! capture those grammars over character sequences.

use vstd::prelude::*;
use crate::chars::find_from;
use crate::chars::match_at;

verus! {

// --- digits ---

/// `c` is a decimal digit.
pub open spec fn is_digit(c: char) -> bool {
    '0' <= c && c <= '9'
}

/// Numeric value of a digit character.
pub open spec fn digit_val(c: char) -> nat {
    (c as nat - '0' as nat) as nat
}

/// Digit character for a value below ten.
pub open spec fn digit_char(d: nat) -> char {
    if d == 0 {
        '0'
    } else if d == 1 {
        '1'
    } else if d == 2 {
        '2'
    } else if d == 3 {
        '3'
    } else if d == 4 {
        '4'
    } else if d == 5 {
        '5'
    } else if d == 6 {
        '6'
    } else if d == 7 {
        '7'
    } else if d == 8 {
        '8'
    } else {
        '9'
    }
}

/// Every character of `s` is a decimal digit.
pub open spec fn all_digits(s: Seq<char>) -> bool {
    forall|i: int| 0 <= i < s.len() ==> is_digit(#[trigger] s[i])
}

/// Value of a digit string.
pub open spec fn dec_value(s: Seq<char>) -> nat
    decreases s.len(),
{
    if s.len() == 0 {
        0
    } else {
        dec_value(s.take(s.len() - 1)) * 10 + digit_val(s[s.len() - 1])
    }
}

/// Decimal representation of `n`, without leading zeros.
pub open spec fn dec_digits(n: nat) -> Seq<char>
    decreases n,
{
    if n < 10 {
        seq![digit_char(n)]
    } else {
        dec_digits(n / 10) + seq![digit_char((n % 10) as nat)]
    }
}

/// The decimal representation is made of digits, is non-empty, has no
/// leading zero unless it is "0", and evaluates back to `n`.
pub proof fn lemma_dec_digits(n: nat)
    ensures
        dec_digits(n).len() >= 1,
        all_digits(dec_digits(n)),
        dec_value(dec_digits(n)) == n,
        dec_digits(n)[0] != '0' || n == 0,
    decreases n,
{
    if n < 10 {
        assert(dec_digits(n).take(0) =~= Seq::<char>::empty());
        assert(dec_value(Seq::<char>::empty()) == 0);
        assert(digit_val(digit_char(n)) == n);
        assert(dec_value(dec_digits(n)) == 0 * 10 + digit_val(digit_char(n)));
    } else {
        lemma_dec_digits(n / 10);
        let s = dec_digits(n);
        assert(s.take(s.len() - 1) =~= dec_digits(n / 10));
        assert(s[s.len() - 1] == digit_char((n % 10) as nat));
        assert(digit_val(digit_char((n % 10) as nat)) == n % 10);
        assert(n == (n / 10) * 10 + n % 10) by (nonlinear_arith);
        assert(dec_value(s) == (n / 10) * 10 + n % 10);
    }
}

// --- exec digits ---

/// Digit character of a value below ten.
pub(crate) fn digit_char_exec(d: usize) -> (c: char)
    requires
        d < 10,
    ensures
        c == digit_char(d as nat),
{
    if d == 0 {
        '0'
    } else if d == 1 {
        '1'
    } else if d == 2 {
        '2'
    } else if d == 3 {
        '3'
    } else if d == 4 {
        '4'
    } else if d == 5 {
        '5'
    } else if d == 6 {
        '6'
    } else if d == 7 {
        '7'
    } else if d == 8 {
        '8'
    } else {
        '9'
    }
}

/// Decimal representation of `n`.
pub(crate) fn usize_to_chars(n: usize) -> (r: Vec<char>)
    ensures
        r@ == dec_digits(n as nat),
    decreases n,
{
    if n < 10 {
        let mut out: Vec<char> = Vec::new();
        out.push(digit_char_exec(n));
        proof {
            assert(out@ =~= dec_digits(n as nat));
        }
        out
    } else {
        let mut out = usize_to_chars(n / 10);
        out.push(digit_char_exec(n % 10));
        proof {
            assert(out@ =~= dec_digits(n as nat));
        }
        out
    }
}

/// Whether `c` is a decimal digit.
pub(crate) fn is_digit_exec(c: char) -> (r: bool)
    ensures
        r == is_digit(c),
{
    '0' <= c && c <= '9'
}

// --- unsigned integer parsing ---

/// The digits of `s` once an optional leading plus sign is removed.
pub open spec fn unsigned_body(s: Seq<char>) -> Seq<char> {
    if s.len() > 0 && s[0] == '+' {
        s.skip(1)
    } else {
        s
    }
}

/// `s` parses as a `usize`: optional plus sign, one or more digits, value in
/// range.
pub open spec fn is_usize_text(s: Seq<char>) -> bool {
    let b = unsigned_body(s);
    b.len() > 0 && all_digits(b) && dec_value(b) <= usize::MAX
}

/// The value `s` denotes when `is_usize_text(s)` holds.
pub open spec fn usize_text_value(s: Seq<char>) -> nat {
    dec_value(unsigned_body(s))
}

/// Parse `v` as a `usize`, accepting exactly the texts the standard parser
/// accepts.
pub(crate) fn parse_usize(v: &Vec<char>) -> (r: Option<usize>)
    ensures
        match r {
            Some(n) => is_usize_text(v@) && n as nat == usize_text_value(v@),
            None => !is_usize_text(v@),
        },
{
    let n = v.len();
    let start: usize = if n > 0 && v[0] == '+' {
        1
    } else {
        0
    };
    let ghost b = unsigned_body(v@);
    proof {
        assert(b =~= v@.skip(start as int));
    }
    if n == start {
        return None;
    }
    let mut acc: usize = 0;
    let mut i: usize = start;
    while i < n
        invariant
            start <= i <= n,
            n == v@.len(),
            b == v@.skip(start as int),
            b == unsigned_body(v@),
            i > start || acc == 0,
            all_digits(b.take(i - start)),
            acc as nat == dec_value(b.take(i - start)),
        decreases n - i,
    {
        let c = v[i];
        if !is_digit_exec(c) {
            proof {
                assert(b[i - start] == c);
                assert(!all_digits(b)) by {
                    if all_digits(b) {
                        assert(is_digit(b[i - start]));
                    }
                }
            }
            return None;
        }
        let d = char_digit_value(c);
        if acc > (usize::MAX - d) / 10 {
            proof {
                assert(acc * 10 + d > usize::MAX) by (nonlinear_arith)
                    requires
                        acc > (usize::MAX - d) / 10,
                        d < 10,
                        acc >= 0,
                ;
                assert(b[i - start] == c);
                if all_digits(b) {
                    lemma_prefix_overflow(b, i - start, acc as nat, d as nat);
                    assert(dec_value(b) > usize::MAX);
                }
            }
            return None;
        }
        proof {
            assert(acc * 10 + d <= usize::MAX) by (nonlinear_arith)
                requires
                    acc <= (usize::MAX - d) / 10,
                    d < 10,
            ;
        }
        acc = acc * 10 + d;
        i = i + 1;
        proof {
            assert(b.take(i - start).take(i - start - 1) =~= b.take(i - start - 1));
            assert(b.take(i - start)[i - start - 1] == c);
            assert forall|k: int| 0 <= k < i - start implies is_digit(
                #[trigger] b.take(i - start)[k],
            ) by {
                if k < i - start - 1 {
                    assert(b.take(i - start - 1)[k] == b.take(i - start)[k]);
                }
            }
        }
    }
    proof {
        assert(b.take(n - start) =~= b);
    }
    Some(acc)
}

/// Numeric value of a digit character.
pub(crate) fn char_digit_value(c: char) -> (d: usize)
    requires
        is_digit(c),
    ensures
        d < 10,
        d as nat == digit_val(c),
{
    (c as u32 - '0' as u32) as usize
}

/// Once a digit prefix overflows, every longer prefix overflows too.
proof fn lemma_prefix_overflow(b: Seq<char>, k: int, acc: nat, d: nat)
    requires
        0 <= k < b.len(),
        all_digits(b),
        acc == dec_value(b.take(k)),
        d == digit_val(b[k]),
        acc * 10 + d > usize::MAX,
    ensures
        dec_value(b) > usize::MAX,
{
    lemma_dec_value_monotone(b, k + 1);
    assert(b.take(k + 1).take(k) =~= b.take(k));
    assert(dec_value(b.take(k + 1)) == acc * 10 + d);
}

/// The value of a digit string is at least the value of any of its prefixes.
proof fn lemma_dec_value_monotone(b: Seq<char>, k: int)
    requires
        0 <= k <= b.len(),
        all_digits(b),
    ensures
        dec_value(b) >= dec_value(b.take(k)),
    decreases b.len() - k,
{
    if k < b.len() {
        lemma_dec_value_monotone(b, k + 1);
        assert(b.take(k + 1).take(k) =~= b.take(k));
        assert(dec_value(b.take(k + 1)) == dec_value(b.take(k)) * 10 + digit_val(b[k]));
        assert(dec_value(b.take(k)) * 10 >= dec_value(b.take(k))) by (nonlinear_arith);
    } else {
        assert(b.take(k) =~= b);
    }
}

// --- number-shaped text ---

/// Case-insensitive match of `c` against a lower-case letter and its
/// upper-case form.
pub open spec fn is_ci(c: char, lo: char, up: char) -> bool {
    c == lo || c == up
}

/// `b` spells "inf" or "infinity", ignoring case.
pub open spec fn is_inf_text(b: Seq<char>) -> bool {
    (b.len() == 3 && is_ci(b[0], 'i', 'I') && is_ci(b[1], 'n', 'N') && is_ci(b[2], 'f', 'F'))
        || (b.len() == 8 && is_ci(b[0], 'i', 'I') && is_ci(b[1], 'n', 'N') && is_ci(b[2], 'f', 'F')
        && is_ci(b[3], 'i', 'I') && is_ci(b[4], 'n', 'N') && is_ci(b[5], 'i', 'I') && is_ci(
        b[6],
        't',
        'T',
    ) && is_ci(b[7], 'y', 'Y'))
}

/// `b` spells "nan", ignoring case.
pub open spec fn is_nan_text(b: Seq<char>) -> bool {
    b.len() == 3 && is_ci(b[0], 'n', 'N') && is_ci(b[1], 'a', 'A') && is_ci(b[2], 'n', 'N')
}

/// Index of the first exponent marker in `b`, if any.
pub open spec fn exp_index(b: Seq<char>) -> Option<int> {
    let e = find_from(b, seq!['e'], 0);
    let u = find_from(b, seq!['E'], 0);
    match (e, u) {
        (Some(i), Some(j)) => if i <= j {
            Some(i)
        } else {
            Some(j)
        },
        (Some(i), None) => Some(i),
        (None, Some(j)) => Some(j),
        (None, None) => None,
    }
}

/// `m` is a mantissa: digits, optionally split once by a decimal point with
/// digits on at least one side.
pub open spec fn is_mantissa(m: Seq<char>) -> bool {
    match find_from(m, seq!['.'], 0) {
        None => m.len() > 0 && all_digits(m),
        Some(i) => all_digits(m.take(i)) && all_digits(m.skip(i + 1)) && (i > 0 || m.len() - i - 1
            > 0),
    }
}

/// `x` is an exponent suffix: optional sign, one or more digits.
pub open spec fn is_exp_suffix(x: Seq<char>) -> bool {
    let y = if x.len() > 0 && (x[0] == '+' || x[0] == '-') {
        x.skip(1)
    } else {
        x
    };
    y.len() > 0 && all_digits(y)
}

/// `s` parses as a floating-point number: optional sign, then an infinity
/// word, a not-a-number word, or a mantissa with an optional exponent.
pub open spec fn is_number_text(s: Seq<char>) -> bool {
    let b = if s.len() > 0 && (s[0] == '+' || s[0] == '-') {
        s.skip(1)
    } else {
        s
    };
    is_inf_text(b) || is_nan_text(b) || (match exp_index(b) {
        Some(i) => is_mantissa(b.take(i)) && is_exp_suffix(b.skip(i + 1)),
        None => is_mantissa(b),
    })
}

/// `s` denotes a number whose sign is not negative.
pub open spec fn is_positive_number_text(s: Seq<char>) -> bool {
    is_number_text(s) && !(s.len() > 0 && s[0] == '-')
}

// --- exec number recognition ---

/// Check every character of `v` in `[a, b)` for being a digit.
pub(crate) fn all_digits_range(v: &Vec<char>, a: usize, b: usize) -> (r: bool)
    requires
        a <= b <= v@.len(),
    ensures
        r == all_digits(v@.subrange(a as int, b as int)),
{
    let mut i: usize = a;
    while i < b
        invariant
            a <= i <= b <= v@.len(),
            forall|k: int| a <= k < i ==> is_digit(#[trigger] v@[k]),
        decreases b - i,
    {
        if !is_digit_exec(v[i]) {
            proof {
                assert(v@.subrange(a as int, b as int)[i - a] == v@[i as int]);
            }
            return false;
        }
        i = i + 1;
    }
    proof {
        assert(forall|k: int|
            0 <= k < b - a ==> v@.subrange(a as int, b as int)[k] == v@[a + k]);
    }
    true
}

/// Case-insensitive equality against a lower-case letter.
fn is_ci_exec(c: char, lo: char, up: char) -> (r: bool)
    ensures
        r == is_ci(c, lo, up),
{
    c == lo || c == up
}

/// Whether the characters of `v` form a number in the floating-point
/// grammar: the test the formatter uses to treat text as numeric.
pub(crate) fn is_number_exec(v: &Vec<char>) -> (r: bool)
    ensures
        r == is_number_text(v@),
{
    let n = v.len();
    let start: usize = if n > 0 && (v[0] == '+' || v[0] == '-') {
        1
    } else {
        0
    };
    let ghost b = if v@.len() > 0 && (v@[0] == '+' || v@[0] == '-') {
        v@.skip(1)
    } else {
        v@
    };
    proof {
        assert(b =~= v@.subrange(start as int, n as int));
    }
    if is_inf_exec(v, start) || is_nan_exec(v, start) {
        return true;
    }
    // find the first exponent marker in b
    let ei = scan_for_two(v, start, n, 'e', 'E');
    proof {
        lemma_exp_index(v@, b, start as int, ei);
    }
    match ei {
        Some(j) => {
            let m_ok = is_mantissa_exec(v, start, j);
            let e_ok = is_exp_suffix_exec(v, j + 1, n);
            proof {
                assert(b.take(j - start) =~= v@.subrange(start as int, j as int));
                assert(b.skip(j - start + 1) =~= v@.subrange(j + 1, n as int));
            }
            m_ok && e_ok
        },
        None => {
            let r = is_mantissa_exec(v, start, n);
            proof {
                assert(b =~= v@.subrange(start as int, n as int));
            }
            r
        },
    }
}

/// First position in `v[a..b]` holding either of two characters.
pub(crate) fn scan_for_two(v: &Vec<char>, a: usize, b: usize, c1: char, c2: char) -> (r: Option<usize>)
    requires
        a <= b <= v@.len(),
    ensures
        match r {
            Some(j) => a <= j < b && (v@[j as int] == c1 || v@[j as int] == c2) && forall|k: int|
                a <= k < j ==> v@[k] != c1 && v@[k] != c2,
            None => forall|k: int| a <= k < b ==> v@[k] != c1 && v@[k] != c2,
        },
{
    let mut i: usize = a;
    while i < b
        invariant
            a <= i <= b <= v@.len(),
            forall|k: int| a <= k < i ==> v@[k] != c1 && v@[k] != c2,
        decreases b - i,
    {
        if v[i] == c1 || v[i] == c2 {
            return Some(i);
        }
        i = i + 1;
    }
    None
}

/// Tie the scanned exponent position to the spec-level `exp_index`.
proof fn lemma_exp_index(v: Seq<char>, b: Seq<char>, start: int, ei: Option<usize>)
    requires
        0 <= start <= v.len(),
        b == v.subrange(start, v.len() as int),
        match ei {
            Some(j) => start <= j < v.len() && (v[j as int] == 'e' || v[j as int] == 'E')
                && forall|k: int| start <= k < j ==> v[k] != 'e' && v[k] != 'E',
            None => forall|k: int| start <= k < v.len() ==> v[k] != 'e' && v[k] != 'E',
        },
    ensures
        match ei {
            Some(j) => exp_index(b) == Some(j - start),
            None => exp_index(b) is None,
        },
{
    assert(forall|k: int| 0 <= k < b.len() ==> b[k] == v[start + k]);
    match ei {
        Some(j) => {
            let bj = j - start;
            if v[j as int] == 'e' {
                lemma_find_single(b, 'e', bj);
            } else {
                lemma_find_single(b, 'E', bj);
            }
            if exists|k: int| 0 <= k < b.len() && b[k] == 'e' {
                let ke = choose|k: int| 0 <= k < b.len() && b[k] == 'e';
                lemma_find_single(b, 'e', ke);
            } else {
                lemma_find_none(b, 'e');
            }
            if exists|k: int| 0 <= k < b.len() && b[k] == 'E' {
                let ku = choose|k: int| 0 <= k < b.len() && b[k] == 'E';
                lemma_find_single(b, 'E', ku);
            } else {
                lemma_find_none(b, 'E');
            }
        },
        None => {
            lemma_find_none(b, 'e');
            lemma_find_none(b, 'E');
        },
    }
}

/// If `c` occurs in `s`, `find_from` returns the first occurrence.
pub(crate) proof fn lemma_find_single(s: Seq<char>, c: char, j: int)
    requires
        0 <= j < s.len(),
        s[j] == c,
    ensures
        match find_from(s, seq![c], 0) {
            Some(i) => 0 <= i <= j && s[i] == c && forall|k: int| 0 <= k < i ==> s[k] != c,
            None => false,
        },
    decreases s.len(),
{
    lemma_find_single_from(s, c, 0, j);
}

/// Generalization of `lemma_find_single` to an arbitrary scan start.
pub(crate) proof fn lemma_find_single_from(s: Seq<char>, c: char, from: int, j: int)
    requires
        0 <= from <= j < s.len(),
        s[j] == c,
    ensures
        match find_from(s, seq![c], from) {
            Some(i) => from <= i <= j && s[i] == c && forall|k: int| from <= k < i ==> s[k] != c,
            None => false,
        },
    decreases j - from,
{
    assert(match_at(s, seq![c], from) <==> s[from] == c) by {
        if s[from] == c {
            assert(s.subrange(from, from + 1) =~= seq![c]);
        } else {
            if s.subrange(from, from + 1) == seq![c] {
                assert(s.subrange(from, from + 1)[0] == c);
            }
        }
    }
    if s[from] == c {
    } else {
        lemma_find_single_from(s, c, from + 1, j);
    }
}

/// If `c` does not occur in `s`, `find_from` finds nothing.
pub(crate) proof fn lemma_find_none(s: Seq<char>, c: char)
    requires
        forall|k: int| 0 <= k < s.len() ==> s[k] != c,
    ensures
        find_from(s, seq![c], 0) is None,
{
    lemma_find_none_from(s, c, 0);
}

/// Generalization of `lemma_find_none` to an arbitrary scan start.
pub(crate) proof fn lemma_find_none_from(s: Seq<char>, c: char, from: int)
    requires
        0 <= from,
        forall|k: int| from <= k < s.len() ==> s[k] != c,
    ensures
        find_from(s, seq![c], from) is None,
    decreases s.len() - from,
{
    if from + 1 <= s.len() {
        assert(!match_at(s, seq![c], from)) by {
            if s.subrange(from, from + 1) == seq![c] {
                assert(s.subrange(from, from + 1)[0] == c);
            }
        }
        lemma_find_none_from(s, c, from + 1);
    }
}

/// Whether `v[start..]` spells an infinity word, ignoring case.
fn is_inf_exec(v: &Vec<char>, start: usize) -> (r: bool)
    requires
        start <= v@.len(),
    ensures
        r == is_inf_text(v@.subrange(start as int, v@.len() as int)),
{
    let n = v.len();
    let len = n - start;
    let ghost b = v@.subrange(start as int, n as int);
    if len == 3 {
        is_ci_exec(v[start], 'i', 'I') && is_ci_exec(v[start + 1], 'n', 'N') && is_ci_exec(
            v[start + 2],
            'f',
            'F',
        )
    } else if len == 8 {
        is_ci_exec(v[start], 'i', 'I') && is_ci_exec(v[start + 1], 'n', 'N') && is_ci_exec(
            v[start + 2],
            'f',
            'F',
        ) && is_ci_exec(v[start + 3], 'i', 'I') && is_ci_exec(v[start + 4], 'n', 'N')
            && is_ci_exec(v[start + 5], 'i', 'I') && is_ci_exec(v[start + 6], 't', 'T')
            && is_ci_exec(v[start + 7], 'y', 'Y')
    } else {
        false
    }
}

/// Whether `v[start..]` spells a not-a-number word, ignoring case.
fn is_nan_exec(v: &Vec<char>, start: usize) -> (r: bool)
    requires
        start <= v@.len(),
    ensures
        r == is_nan_text(v@.subrange(start as int, v@.len() as int)),
{
    let n = v.len();
    if n - start == 3 {
        is_ci_exec(v[start], 'n', 'N') && is_ci_exec(v[start + 1], 'a', 'A') && is_ci_exec(
            v[start + 2],
            'n',
            'N',
        )
    } else {
        false
    }
}

/// Whether `v[a..b]` is a mantissa.
fn is_mantissa_exec(v: &Vec<char>, a: usize, b: usize) -> (r: bool)
    requires
        a <= b <= v@.len(),
    ensures
        r == is_mantissa(v@.subrange(a as int, b as int)),
{
    let ghost m = v@.subrange(a as int, b as int);
    // find the first dot
    let di = scan_for_two(v, a, b, '.', '.');
    proof {
        assert(forall|k: int| 0 <= k < m.len() ==> m[k] == v@[a + k]);
        match di {
            Some(j) => {
                lemma_find_single(m, '.', j - a);
            },
            None => {
                lemma_find_none(m, '.');
            },
        }
    }
    match di {
        Some(j) => {
            let left = all_digits_range(v, a, j);
            let right = all_digits_range(v, j + 1, b);
            proof {
                let ghost sj = find_from(m, seq!['.'], 0).unwrap();
                assert(m[sj] == '.');
                assert(v@[a + sj] == '.');
                assert(sj == j - a) by {
                    if sj < j - a {
                        assert(v@[a + sj] != '.');
                    }
                    if sj > j - a {
                        assert(m[j - a] == '.');
                    }
                }
                assert(m.take(j - a) =~= v@.subrange(a as int, j as int));
                assert(m.skip(j - a + 1) =~= v@.subrange(j + 1, b as int));
            }
            left && (right && (j > a || b - j - 1 > 0))
        },
        None => {
            let r = (b - a > 0) && all_digits_range(v, a, b);
            proof {
                assert(m =~= v@.subrange(a as int, b as int));
            }
            r
        },
    }
}

/// Whether `v[a..b]` is an exponent suffix.
fn is_exp_suffix_exec(v: &Vec<char>, a: usize, b: usize) -> (r: bool)
    requires
        a <= b <= v@.len(),
    ensures
        r == is_exp_suffix(v@.subrange(a as int, b as int)),
{
    let ghost x = v@.subrange(a as int, b as int);
    let start: usize = if b - a > 0 && (v[a] == '+' || v[a] == '-') {
        a + 1
    } else {
        a
    };
    let r = (b - start > 0) && all_digits_range(v, start, b);
    proof {
        if x.len() > 0 && (x[0] == '+' || x[0] == '-') {
            assert(x.skip(1) =~= v@.subrange(start as int, b as int));
        } else {
            assert(x =~= v@.subrange(start as int, b as int));
        }
    }
    r
}

/// Whether the text denotes a non-negative number: the guard used when a
/// plus sign is requested.
pub(crate) fn is_positive_number_exec(v: &Vec<char>) -> (r: bool)
    ensures
        r == is_positive_number_text(v@),
{
    let num = is_number_exec(v);
    num && !(v.len() > 0 && v[0] == '-')
}


// --- digit-run tokens ---

/// Running value of the digit run at `i`, stopping where a character is not
/// a digit or the value would leave the `usize` range.
pub open spec fn token_scan(s: Seq<char>, i: int, acc: nat) -> nat
    decreases s.len() - i,
    when 0 <= i
{
    if i < s.len() && is_digit(s[i]) && acc * 10 + digit_val(s[i]) <= usize::MAX {
        token_scan(s, i + 1, acc * 10 + digit_val(s[i]))
    } else {
        acc
    }
}

/// Value of the digit run starting at `i`, if one starts there: the longest
/// prefix of that run whose value stays in the `usize` range.
pub open spec fn usize_token(s: Seq<char>, i: int) -> Option<nat> {
    if 0 <= i < s.len() && is_digit(s[i]) {
        Some(token_scan(s, i, 0))
    } else {
        None
    }
}

/// The scanned token value stays within the `usize` range.
pub proof fn lemma_token_scan_bound(s: Seq<char>, i: int, acc: nat)
    requires
        0 <= i,
        acc <= usize::MAX,
    ensures
        token_scan(s, i, acc) <= usize::MAX,
    decreases s.len() - i,
{
    if i < s.len() && is_digit(s[i]) && acc * 10 + digit_val(s[i]) <= usize::MAX {
        lemma_token_scan_bound(s, i + 1, acc * 10 + digit_val(s[i]));
    }
}

/// Read the digit-run token at `i`, as `usize_token` describes it.
pub(crate) fn usize_token_exec(v: &Vec<char>, i: usize) -> (r: Option<usize>)
    ensures
        match r {
            Some(t) => usize_token(v@, i as int) == Some(t as nat),
            None => usize_token(v@, i as int) is None,
        },
{
    let n = v.len();
    if i >= n || !is_digit_exec(v[i]) {
        return None;
    }
    let mut acc: usize = 0;
    let mut k: usize = i;
    loop
        invariant
            i <= k <= n,
            n == v@.len(),
            i < n,
            is_digit(v@[i as int]),
            token_scan(v@, i as int, 0) == token_scan(v@, k as int, acc as nat),
        decreases n - k,
    {
        if k < n && is_digit_exec(v[k]) {
            let d = char_digit_value(v[k]);
            if acc <= (usize::MAX - d) / 10 {
                proof {
                    assert(acc * 10 + d <= usize::MAX) by (nonlinear_arith)
                        requires
                            acc <= (usize::MAX - d) / 10,
                            d < 10,
                    ;
                }
                acc = acc * 10 + d;
                k = k + 1;
            } else {
                proof {
                    assert(acc * 10 + d > usize::MAX) by (nonlinear_arith)
                        requires
                            acc > (usize::MAX - d) / 10,
                            d < 10,
                            acc >= 0,
                    ;
                }
                return Some(acc);
            }
        } else {
            return Some(acc);
        }
    }
}

/// First occurrence of the character `c` in `v` at or after `from`.
pub(crate) fn find_char(v: &Vec<char>, c: char, from: usize) -> (r: Option<usize>)
    requires
        from <= v@.len(),
    ensures
        match r {
            Some(i) => from <= i && i < v@.len() && find_from(v@, seq![c], from as int) == Some(
                i as int,
            ),
            None => find_from(v@, seq![c], from as int) is None,
        },
{
    let r = scan_for_two(v, from, v.len(), c, c);
    proof {
        match r {
            Some(j) => {
                lemma_find_single_from(v@, c, from as int, j as int);
            },
            None => {
                lemma_find_none_from(v@, c, from as int);
            },
        }
    }
    r
}

} // verus!
