//! Format specifications.
//!
//! The mini-language after the colon of a placeholder,
//! `[[fill]align][sign]['#']['0'][width]['.' precision][type]`, is validated,
//! parsed into a descriptor, and applied to a value. Validation enforces the
//! category order and rejects the tokens the engine does not implement
//! (octal, hex, pointer, binary and exponent markers, `$` argument selection
//! and `.*`). Formatting applies precision, debug rendering, sign, alignment
//! and width in that order.

use vstd::prelude::*;
use vstd::string::StringExecFns;
use crate::chars::char_repeat;
use crate::chars::chars_to_string;
use crate::chars::find_from;
use crate::chars::find_pat;
use crate::chars::repeat_char;
use crate::chars::rfind;
use crate::chars::rfind_pat;
use crate::chars::str_to_chars;
use crate::chars::strip_prefix_rep;
use crate::chars::strip_prefix_rep_exec;
use crate::chars::subvec;
use crate::chars::push_all;
use crate::chars::trim;
use crate::chars::trim_exec;
use crate::chars::lemma_find_from_some;
use crate::error::parse_err;
use crate::error::ufs_err;
use crate::error::Error;
use crate::error::SpecErr;
use crate::numeric::dec_digits;
use crate::numeric::find_char;
use crate::numeric::is_digit;
use crate::numeric::is_digit_exec;
use crate::numeric::lemma_token_scan_bound;
use crate::numeric::usize_to_chars;
use crate::numeric::usize_token;
use crate::numeric::usize_token_exec;
use crate::numeric::is_number_text;
use crate::numeric::is_number_exec;
use crate::numeric::is_positive_number_text;
use crate::numeric::is_positive_number_exec;
use crate::value::spec_debug;
use crate::value::spec_display;
use crate::value::spec_display_prec;
use crate::value::render_debug;
use crate::value::render_display;
use crate::value::render_display_prec;
use crate::value::Value;

verus! {

/// The mathematical content of a format specification.
pub ghost struct SpecFmt {
    /// Alignment: an optional fill character and a direction.
    pub align: Option<(Option<char>, char)>,
    /// Sign flag, `+` or `-`.
    pub sign: Option<char>,
    /// Alternate flag `#`.
    pub hashtag: bool,
    /// Zero-padding flag.
    pub zero: bool,
    /// Minimum width.
    pub width: Option<usize>,
    /// Number of fractional digits or maximum length.
    pub precision: Option<usize>,
    /// Trailing type token; only `?` affects formatting.
    pub types: Option<Seq<char>>,
}

/// A format specification with nothing set.
pub open spec fn empty_fmt() -> SpecFmt {
    SpecFmt {
        align: None,
        sign: None,
        hashtag: false,
        zero: false,
        width: None,
        precision: None,
        types: None,
    }
}

/// A parsed format specification: how one placeholder renders its value.
#[derive(Debug, Clone)]
pub struct FormatSpec {
    align: Option<(Option<char>, char)>,
    sign: Option<char>,
    hashtag: bool,
    zero: bool,
    width: Option<usize>,
    precision: Option<usize>,
    types: Option<String>,
}

impl View for FormatSpec {
    type V = SpecFmt;

    closed spec fn view(&self) -> SpecFmt {
        SpecFmt {
            align: self.align,
            sign: self.sign,
            hashtag: self.hashtag,
            zero: self.zero,
            width: self.width,
            precision: self.precision,
            types: match self.types {
                Some(t) => Some(t@),
                None => None,
            },
        }
    }
}

// --- error messages ---

/// `head` followed by the placeholder text in braces.
pub open spec fn braced_msg(head: Seq<char>, ph: Seq<char>) -> Seq<char> {
    head + seq!['{'] + ph + seq!['}']
}

/// The message of an out-of-order category pair.
pub open spec fn order_msg(first: Seq<char>, second: Seq<char>, ph: Seq<char>) -> Seq<char> {
    braced_msg(first + " should be used before "@ + second + " in "@, ph)
}

/// The message of an unsupported formatting token.
pub open spec fn unsupported_msg(tok: Seq<char>, ph: Seq<char>) -> Seq<char> {
    braced_msg(tok + " formatting is not supported but used in "@, ph)
}

/// Build `head` followed by the placeholder text in braces.
pub(crate) fn msg_braced(head: &str, ph: &Vec<char>) -> (r: String)
    ensures
        r@ == braced_msg(head@, ph@),
{
    let mut s = String::from_str(head);
    s.append("{");
    let phs = chars_to_string(ph);
    s.append(phs.as_str());
    s.append("}");
    proof {
        reveal_strlit("{");
        reveal_strlit("}");
        assert(s@ =~= braced_msg(head@, ph@));
    }
    s
}

/// Build the message of an out-of-order category pair.
fn msg_order(first: &str, second: &str, ph: &Vec<char>) -> (r: String)
    ensures
        r@ == order_msg(first@, second@, ph@),
{
    let mut s = String::from_str(first);
    s.append(" should be used before ");
    s.append(second);
    s.append(" in ");
    s.append("{");
    let phs = chars_to_string(ph);
    s.append(phs.as_str());
    s.append("}");
    proof {
        reveal_strlit("{");
        reveal_strlit("}");
        assert(s@ =~= order_msg(first@, second@, ph@));
    }
    s
}

/// Build the message of an unsupported formatting token.
fn msg_unsupported(tok: &str, ph: &Vec<char>) -> (r: String)
    ensures
        r@ == unsupported_msg(tok@, ph@),
{
    let mut s = String::from_str(tok);
    s.append(" formatting is not supported but used in ");
    s.append("{");
    let phs = chars_to_string(ph);
    s.append(phs.as_str());
    s.append("}");
    proof {
        reveal_strlit("{");
        reveal_strlit("}");
        assert(s@ =~= unsupported_msg(tok@, ph@));
    }
    s
}

// --- validation ---

/// First occurrence of a single character.
pub open spec fn fc(s: Seq<char>, c: char) -> Option<int> {
    find_from(s, seq![c], 0)
}

/// The payload of an option known to be set.
pub open spec fn opt_val(o: Option<int>) -> int {
    match o {
        Some(i) => i,
        None => 0,
    }
}

/// More than one distinct alignment character occurs.
pub open spec fn multi_align(sp: Seq<char>) -> bool {
    let l = fc(sp, '<');
    let c = fc(sp, '^');
    let g = fc(sp, '>');
    (l is Some && c is Some) || (l is Some && g is Some) || (c is Some && g is Some)
}

/// Position of the single alignment character, if exactly one kind occurs.
pub open spec fn align_first(sp: Seq<char>) -> Option<int> {
    match (fc(sp, '<'), fc(sp, '^'), fc(sp, '>')) {
        (Some(i), None, None) => Some(i),
        (None, Some(i), None) => Some(i),
        (None, None, Some(i)) => Some(i),
        _ => None,
    }
}

/// The specification text with a fill character removed: when the alignment
/// character stands at index one, the character before it is the fill.
pub open spec fn despec(sp: Seq<char>) -> Seq<char> {
    if align_first(sp) == Some(1int) {
        sp.skip(1)
    } else {
        sp
    }
}

/// Position of the alignment character in the fill-stripped text.
pub open spec fn align_pos(sp: Seq<char>) -> Option<int> {
    if align_first(sp) == Some(1int) {
        Some(0int)
    } else {
        align_first(sp)
    }
}

/// Both sign characters occur.
pub open spec fn multi_sign(sp2: Seq<char>) -> bool {
    fc(sp2, '+') is Some && fc(sp2, '-') is Some
}

/// Position of the sign character, if exactly one kind occurs.
pub open spec fn sign_pos(sp2: Seq<char>) -> Option<int> {
    match (fc(sp2, '+'), fc(sp2, '-')) {
        (Some(i), None) => Some(i),
        (None, Some(i)) => Some(i),
        _ => None,
    }
}

/// Position of the zero flag: a zero after the precision dot belongs to the
/// precision, not to the flags.
pub open spec fn zero_pos(sp2: Seq<char>) -> Option<int> {
    match (fc(sp2, '0'), fc(sp2, '.')) {
        (Some(x), Some(y)) => if x > y {
            None
        } else {
            Some(x)
        },
        (z, _) => z,
    }
}

/// Validation of one specification text `sp` against the grammar order and
/// the unsupported tokens; `ph` is the whole placeholder text, used in
/// messages. `None` means the text is acceptable.
pub open spec fn spec_validate(sp: Seq<char>, ph: Seq<char>) -> Option<SpecErr> {
    if multi_align(sp) {
        Some(parse_err(braced_msg("multiple align specifiers used in "@, ph)))
    } else {
        let sp2 = despec(sp);
        if multi_sign(sp2) {
            Some(parse_err(braced_msg("multiple signs used in "@, ph)))
        } else {
            let a = align_pos(sp);
            let sg = sign_pos(sp2);
            let h = fc(sp2, '#');
            let z = zero_pos(sp2);
            let pr = fc(sp2, '.');
            let q = fc(sp2, '?');
            if a is Some && sg is Some && opt_val(a) > opt_val(sg) {
                Some(parse_err(order_msg("align"@, "sign"@, ph)))
            } else if a is Some && h is Some && opt_val(a) > opt_val(h) {
                Some(parse_err(order_msg("align"@, "#"@, ph)))
            } else if a is Some && z is Some && opt_val(a) > opt_val(z) {
                Some(parse_err(order_msg("align"@, "0 padding and width"@, ph)))
            } else if a is Some && pr is Some && opt_val(a) > opt_val(pr) {
                Some(parse_err(order_msg("align"@, "precision"@, ph)))
            } else if a is Some && q is Some && opt_val(a) > opt_val(q) {
                Some(parse_err(order_msg("align"@, "?"@, ph)))
            } else if sg is Some && h is Some && opt_val(sg) > opt_val(h) {
                Some(parse_err(order_msg("sign"@, "#"@, ph)))
            } else if sg is Some && z is Some && opt_val(sg) > opt_val(z) {
                Some(parse_err(order_msg("sign"@, "0 padding and width"@, ph)))
            } else if sg is Some && pr is Some && opt_val(sg) > opt_val(pr) {
                Some(parse_err(order_msg("sign"@, "precision"@, ph)))
            } else if sg is Some && q is Some && opt_val(sg) > opt_val(q) {
                Some(parse_err(order_msg("sign"@, "?"@, ph)))
            } else if h is Some && z is Some && opt_val(h) > opt_val(z) {
                Some(parse_err(order_msg("#"@, "0 padding and width"@, ph)))
            } else if h is Some && pr is Some && opt_val(h) > opt_val(pr) {
                Some(parse_err(order_msg("#"@, "precision"@, ph)))
            } else if h is Some && q is Some && opt_val(h) > opt_val(q) {
                Some(parse_err(order_msg("#"@, "?"@, ph)))
            } else if z is Some && pr is Some && opt_val(z) > opt_val(pr) {
                Some(parse_err(order_msg("0"@, "precision"@, ph)))
            } else if z is Some && q is Some && opt_val(z) > opt_val(q) {
                Some(parse_err(order_msg("0"@, "?"@, ph)))
            } else if pr is Some && q is Some && opt_val(pr) > opt_val(q) {
                Some(parse_err(order_msg("precision"@, "?"@, ph)))
            } else if pr is Some && opt_val(pr) + 1 >= sp2.len() {
                Some(parse_err(braced_msg("precision value not supplied in "@, ph)))
            } else if pr is Some && !is_digit(sp2[opt_val(pr) + 1]) {
                Some(parse_err(braced_msg("precision value is not a valid usize in "@, ph)))
            } else if fc(sp2, '$') is Some {
                Some(ufs_err(braced_msg(
                    "parameter setting through $ sign argument is not supported but used in "@,
                    ph,
                )))
            } else if find_from(sp2, seq!['.', '*'], 0) is Some {
                Some(ufs_err(unsupported_msg("asterisk .*"@, ph)))
            } else if fc(sp2, 'o') is Some {
                Some(ufs_err(unsupported_msg("o"@, ph)))
            } else if fc(sp2, 'x') is Some {
                Some(ufs_err(unsupported_msg("x"@, ph)))
            } else if fc(sp2, 'X') is Some {
                Some(ufs_err(unsupported_msg("X"@, ph)))
            } else if fc(sp2, 'p') is Some {
                Some(ufs_err(unsupported_msg("p"@, ph)))
            } else if fc(sp2, 'b') is Some {
                Some(ufs_err(unsupported_msg("b"@, ph)))
            } else if fc(sp2, 'e') is Some {
                Some(ufs_err(unsupported_msg("e"@, ph)))
            } else if fc(sp2, 'E') is Some {
                Some(ufs_err(unsupported_msg("E"@, ph)))
            } else {
                None
            }
        }
    }
}

/// Check one specification text as `spec_validate` describes it.
fn validate(sp: &Vec<char>, ph: &Vec<char>) -> (r: Option<Error>)
    ensures
        match r {
            Some(e) => spec_validate(sp@, ph@) == Some(e@),
            None => spec_validate(sp@, ph@) is None,
        },
{
    let n = sp.len();
    let lt = find_char(sp, '<', 0);
    let ca = find_char(sp, '^', 0);
    let gt = find_char(sp, '>', 0);
    if (lt.is_some() && ca.is_some()) || (lt.is_some() && gt.is_some()) || (ca.is_some()
        && gt.is_some()) {
        return Some(Error::new_parse(msg_braced("multiple align specifiers used in ", ph)));
    }
    let af: Option<usize> = match (lt, ca, gt) {
        (Some(i), None, None) => Some(i),
        (None, Some(i), None) => Some(i),
        (None, None, Some(i)) => Some(i),
        _ => None,
    };
    proof {
        assert(align_first(sp@) == match af {
            Some(i) => Some(i as int),
            None => None,
        });
    }
    let fill_cut = af == Some(1usize);
    let sp2 = if fill_cut {
        subvec(sp, 1, n)
    } else {
        subvec(sp, 0, n)
    };
    proof {
        if fill_cut {
            assert(sp2@ =~= sp@.skip(1));
        } else {
            assert(sp2@ =~= sp@);
        }
        assert(sp2@ == despec(sp@));
    }
    let a: Option<usize> = if fill_cut {
        Some(0)
    } else {
        af
    };
    proof {
        assert(align_pos(sp@) == match a {
            Some(i) => Some(i as int),
            None => None,
        });
    }
    let n2 = sp2.len();
    let plus = find_char(&sp2, '+', 0);
    let minus = find_char(&sp2, '-', 0);
    if plus.is_some() && minus.is_some() {
        return Some(Error::new_parse(msg_braced("multiple signs used in ", ph)));
    }
    let sg: Option<usize> = match (plus, minus) {
        (Some(i), None) => Some(i),
        (None, Some(i)) => Some(i),
        _ => None,
    };
    proof {
        assert(sign_pos(sp2@) == match sg {
            Some(i) => Some(i as int),
            None => None,
        });
    }
    let h = find_char(&sp2, '#', 0);
    let z0 = find_char(&sp2, '0', 0);
    let pr = find_char(&sp2, '.', 0);
    let z: Option<usize> = match (z0, pr) {
        (Some(x), Some(y)) => if x > y {
            None
        } else {
            Some(x)
        },
        (w, _) => w,
    };
    proof {
        assert(zero_pos(sp2@) == match z {
            Some(i) => Some(i as int),
            None => None,
        });
    }
    let q = find_char(&sp2, '?', 0);
    if a.is_some() && sg.is_some() && a.unwrap() > sg.unwrap() {
        return Some(Error::new_parse(msg_order("align", "sign", ph)));
    }
    if a.is_some() && h.is_some() && a.unwrap() > h.unwrap() {
        return Some(Error::new_parse(msg_order("align", "#", ph)));
    }
    if a.is_some() && z.is_some() && a.unwrap() > z.unwrap() {
        return Some(Error::new_parse(msg_order("align", "0 padding and width", ph)));
    }
    if a.is_some() && pr.is_some() && a.unwrap() > pr.unwrap() {
        return Some(Error::new_parse(msg_order("align", "precision", ph)));
    }
    if a.is_some() && q.is_some() && a.unwrap() > q.unwrap() {
        return Some(Error::new_parse(msg_order("align", "?", ph)));
    }
    if sg.is_some() && h.is_some() && sg.unwrap() > h.unwrap() {
        return Some(Error::new_parse(msg_order("sign", "#", ph)));
    }
    if sg.is_some() && z.is_some() && sg.unwrap() > z.unwrap() {
        return Some(Error::new_parse(msg_order("sign", "0 padding and width", ph)));
    }
    if sg.is_some() && pr.is_some() && sg.unwrap() > pr.unwrap() {
        return Some(Error::new_parse(msg_order("sign", "precision", ph)));
    }
    if sg.is_some() && q.is_some() && sg.unwrap() > q.unwrap() {
        return Some(Error::new_parse(msg_order("sign", "?", ph)));
    }
    if h.is_some() && z.is_some() && h.unwrap() > z.unwrap() {
        return Some(Error::new_parse(msg_order("#", "0 padding and width", ph)));
    }
    if h.is_some() && pr.is_some() && h.unwrap() > pr.unwrap() {
        return Some(Error::new_parse(msg_order("#", "precision", ph)));
    }
    if h.is_some() && q.is_some() && h.unwrap() > q.unwrap() {
        return Some(Error::new_parse(msg_order("#", "?", ph)));
    }
    if z.is_some() && pr.is_some() && z.unwrap() > pr.unwrap() {
        return Some(Error::new_parse(msg_order("0", "precision", ph)));
    }
    if z.is_some() && q.is_some() && z.unwrap() > q.unwrap() {
        return Some(Error::new_parse(msg_order("0", "?", ph)));
    }
    if pr.is_some() && q.is_some() && pr.unwrap() > q.unwrap() {
        return Some(Error::new_parse(msg_order("precision", "?", ph)));
    }
    if pr.is_some() && pr.unwrap() + 1 >= n2 {
        return Some(Error::new_parse(msg_braced("precision value not supplied in ", ph)));
    }
    if pr.is_some() && !is_digit_exec(sp2[pr.unwrap() + 1]) {
        return Some(Error::new_parse(msg_braced("precision value is not a valid usize in ", ph)));
    }
    if find_char(&sp2, '$', 0).is_some() {
        return Some(Error::new_ufs(msg_braced(
            "parameter setting through $ sign argument is not supported but used in ",
            ph,
        )));
    }
    let mut dotstar: Vec<char> = Vec::new();
    dotstar.push('.');
    dotstar.push('*');
    proof {
        assert(dotstar@ =~= seq!['.', '*']);
    }
    if find_pat(&sp2, &dotstar, 0).is_some() {
        return Some(Error::new_ufs(msg_unsupported("asterisk .*", ph)));
    }
    if find_char(&sp2, 'o', 0).is_some() {
        return Some(Error::new_ufs(msg_unsupported("o", ph)));
    }
    if find_char(&sp2, 'x', 0).is_some() {
        return Some(Error::new_ufs(msg_unsupported("x", ph)));
    }
    if find_char(&sp2, 'X', 0).is_some() {
        return Some(Error::new_ufs(msg_unsupported("X", ph)));
    }
    if find_char(&sp2, 'p', 0).is_some() {
        return Some(Error::new_ufs(msg_unsupported("p", ph)));
    }
    if find_char(&sp2, 'b', 0).is_some() {
        return Some(Error::new_ufs(msg_unsupported("b", ph)));
    }
    if find_char(&sp2, 'e', 0).is_some() {
        return Some(Error::new_ufs(msg_unsupported("e", ph)));
    }
    if find_char(&sp2, 'E', 0).is_some() {
        return Some(Error::new_ufs(msg_unsupported("E", ph)));
    }
    None
}

// --- parsing ---

/// An alignment character.
pub open spec fn is_align_char(c: char) -> bool {
    c == '<' || c == '^' || c == '>'
}

/// The alignment at the front of `sp` and the number of characters it uses.
pub open spec fn parse_align(sp: Seq<char>) -> (Option<(Option<char>, char)>, int) {
    if sp.len() >= 1 && is_align_char(sp[0]) {
        (Some((None, sp[0])), 1)
    } else if sp.len() >= 2 && is_align_char(sp[1]) {
        (Some((Some(sp[0]), sp[1])), 2)
    } else {
        (None, 0)
    }
}

/// `sp` cut at its first space.
pub open spec fn cut_at_space(s: Seq<char>) -> Seq<char> {
    match fc(s, ' ') {
        Some(i) => s.take(i),
        None => s,
    }
}

/// The text after the alignment prefix.
pub open spec fn after_align(sp: Seq<char>) -> Seq<char> {
    sp.skip(parse_align(sp).1)
}

/// The sign character at the front of `r1`, if any.
pub open spec fn sign_of(r1: Seq<char>) -> Option<char> {
    if r1.len() > 0 && (r1[0] == '+' || r1[0] == '-') {
        Some(r1[0])
    } else {
        None
    }
}

/// The text after the sign.
pub open spec fn after_sign(r1: Seq<char>) -> Seq<char> {
    if sign_of(r1) is Some {
        r1.skip(1)
    } else {
        r1
    }
}

/// Whether the alternate flag stands at the front of `r2`.
pub open spec fn hash_of(r2: Seq<char>) -> bool {
    r2.len() > 0 && r2[0] == '#'
}

/// The text after the alternate flag.
pub open spec fn after_hash(r2: Seq<char>) -> Seq<char> {
    if hash_of(r2) {
        r2.skip(1)
    } else {
        r2
    }
}

/// Whether the zero flag stands at the front of `r3`.
pub open spec fn zero_of(r3: Seq<char>) -> bool {
    r3.len() > 0 && r3[0] == '0'
}

/// The text after the zero flag.
pub open spec fn after_zero(r3: Seq<char>) -> Seq<char> {
    if zero_of(r3) {
        r3.skip(1)
    } else {
        r3
    }
}

/// The width at the front of `r4`, if a digit run starts there.
pub open spec fn width_of(r4: Seq<char>) -> Option<usize> {
    match usize_token(r4, 0) {
        Some(t) => Some(t as usize),
        None => None,
    }
}

/// The text after the width, stripped of repeated copies of its decimal
/// representation.
pub open spec fn after_width(r4: Seq<char>) -> Seq<char> {
    match width_of(r4) {
        Some(w) => strip_prefix_rep(r4, dec_digits(w as nat)),
        None => r4,
    }
}

/// The precision after a leading dot in `r5`, if any.
pub open spec fn precision_of(r5: Seq<char>) -> Option<usize> {
    if r5.len() > 0 && r5[0] == '.' {
        match usize_token(r5, 1) {
            Some(t) => Some(t as usize),
            None => None,
        }
    } else {
        None
    }
}

/// The text after the precision.
pub open spec fn after_precision(r5: Seq<char>) -> Seq<char> {
    match precision_of(r5) {
        Some(p) => strip_prefix_rep(r5, seq!['.'] + dec_digits(p as nat)),
        None => r5,
    }
}

/// The trailing type token of `r6`: its first space-separated word, or
/// nothing when `r6` is empty.
pub open spec fn types_of(r6: Seq<char>) -> Option<Seq<char>> {
    if r6.len() == 0 {
        None
    } else {
        Some(cut_at_space(r6))
    }
}

/// Parse one specification text into a descriptor: alignment with optional
/// fill, sign, `#`, `0`, width, precision, trailing type token, each consumed
/// from the front in that order.
pub open spec fn spec_parse(sp: Seq<char>) -> SpecFmt {
    let r1 = after_align(sp);
    let r2 = after_sign(r1);
    let r3 = after_hash(r2);
    let r4 = after_zero(r3);
    let r5 = after_width(r4);
    let r6 = after_precision(r5);
    SpecFmt {
        align: parse_align(sp).0,
        sign: sign_of(r1),
        hashtag: hash_of(r2),
        zero: zero_of(r3),
        width: width_of(r4),
        precision: precision_of(r5),
        types: types_of(r6),
    }
}

/// Parse the alignment, sign and flag prefix of one specification text.
fn parse_front(sp: &Vec<char>) -> (r: (Option<(Option<char>, char)>, Option<char>, bool, bool, Vec<
    char,
>))
    ensures
        r.0 == parse_align(sp@).0,
        r.1 == sign_of(after_align(sp@)),
        r.2 == hash_of(after_sign(after_align(sp@))),
        r.3 == zero_of(after_hash(after_sign(after_align(sp@)))),
        r.4@ == after_zero(after_hash(after_sign(after_align(sp@)))),
{
    let n = sp.len();
    let mut consumed: usize = 0;
    let align: Option<(Option<char>, char)> = if n >= 1 && is_align_char_exec(sp[0]) {
        consumed = 1;
        Some((None, sp[0]))
    } else if n >= 2 && is_align_char_exec(sp[1]) {
        consumed = 2;
        Some((Some(sp[0]), sp[1]))
    } else {
        None
    };
    proof {
        assert(align == parse_align(sp@).0);
        assert(consumed as int == parse_align(sp@).1);
    }
    let rest1 = subvec(sp, consumed, n);
    proof {
        assert(rest1@ =~= after_align(sp@));
    }
    let sign: Option<char> = if rest1.len() > 0 && (rest1[0] == '+' || rest1[0] == '-') {
        Some(rest1[0])
    } else {
        None
    };
    proof {
        assert(sign == sign_of(rest1@));
    }
    let rest2 = if sign.is_some() {
        subvec(&rest1, 1, rest1.len())
    } else {
        subvec(&rest1, 0, rest1.len())
    };
    proof {
        assert(rest2@ =~= after_sign(rest1@));
    }
    let hashtag = rest2.len() > 0 && rest2[0] == '#';
    let rest3 = if hashtag {
        subvec(&rest2, 1, rest2.len())
    } else {
        subvec(&rest2, 0, rest2.len())
    };
    proof {
        assert(rest3@ =~= after_hash(rest2@));
    }
    let zero = rest3.len() > 0 && rest3[0] == '0';
    let rest4 = if zero {
        subvec(&rest3, 1, rest3.len())
    } else {
        subvec(&rest3, 0, rest3.len())
    };
    proof {
        assert(rest4@ =~= after_zero(rest3@));
    }
    (align, sign, hashtag, zero, rest4)
}

/// Parse one specification text, as `spec_parse` describes it.
fn parse(sp: &Vec<char>) -> (r: FormatSpec)
    ensures
        r@ == spec_parse(sp@),
{
    let (align, sign, hashtag, zero, rest4) = parse_front(sp);
    let width = usize_token_exec(&rest4, 0);
    proof {
        lemma_token_scan_bound(rest4@, 0, 0);
        assert(width == width_of(rest4@));
    }
    let rest5 = match width {
        Some(w) => {
            let digits = usize_to_chars(w);
            strip_prefix_rep_exec(&rest4, &digits)
        },
        None => {
            let r = subvec(&rest4, 0, rest4.len());
            proof {
                assert(r@ =~= rest4@);
            }
            r
        },
    };
    proof {
        assert(rest5@ == after_width(rest4@));
    }
    let precision: Option<usize> = if rest5.len() > 0 && rest5[0] == '.' {
        usize_token_exec(&rest5, 1)
    } else {
        None
    };
    proof {
        lemma_token_scan_bound(rest5@, 1, 0);
        assert(precision == precision_of(rest5@));
    }
    let rest6 = match precision {
        Some(p) => {
            let mut pat: Vec<char> = Vec::new();
            pat.push('.');
            let digits = usize_to_chars(p);
            push_all(&mut pat, &digits);
            proof {
                assert(pat@ =~= seq!['.'] + dec_digits(p as nat));
            }
            strip_prefix_rep_exec(&rest5, &pat)
        },
        None => {
            let r = subvec(&rest5, 0, rest5.len());
            proof {
                assert(r@ =~= rest5@);
            }
            r
        },
    };
    proof {
        assert(rest6@ == after_precision(rest5@));
    }
    let types: Option<String> = if rest6.len() == 0 {
        None
    } else {
        match find_char(&rest6, ' ', 0) {
            Some(i) => {
                proof {
                    lemma_find_from_some(rest6@, seq![' '], 0, i as int);
                }
                let tok = subvec(&rest6, 0, i);
                proof {
                    assert(tok@ =~= rest6@.take(i as int));
                }
                Some(chars_to_string(&tok))
            },
            None => {
                let tok = subvec(&rest6, 0, rest6.len());
                proof {
                    assert(tok@ =~= rest6@);
                }
                Some(chars_to_string(&tok))
            },
        }
    };
    proof {
        assert((match types {
            Some(t) => Some(t@),
            None => None,
        }) == types_of(rest6@));
    }
    let r = FormatSpec { align, sign, hashtag, zero, width, precision, types };
    r
}

/// An alignment character.
fn is_align_char_exec(c: char) -> (r: bool)
    ensures
        r == is_align_char(c),
{
    c == '<' || c == '^' || c == '>'
}

// --- construction ---

/// Construction from the whole placeholder text: the specification is what
/// follows the last colon; with no colon at all, nothing is set.
pub open spec fn spec_fs_new(matched: Seq<char>) -> Result<SpecFmt, SpecErr> {
    match rfind(matched, seq![':']) {
        Some(ci) => {
            let sp = matched.skip(ci + 1);
            match spec_validate(sp, matched) {
                Some(e) => Err(e),
                None => Ok(spec_parse(sp)),
            }
        },
        None => Ok(empty_fmt()),
    }
}

impl FormatSpec {
    /// Parse the format specification of one placeholder, validating it
    /// first, as `spec_fs_new` describes it.
    pub(crate) fn new(matched: &Vec<char>) -> (r: Result<FormatSpec, Error>)
        ensures
            match r {
                Ok(fs) => spec_fs_new(matched@) == Ok::<SpecFmt, SpecErr>(fs@),
                Err(e) => spec_fs_new(matched@) == Err::<SpecFmt, SpecErr>(e@),
            },
    {
        let mut colon: Vec<char> = Vec::new();
        colon.push(':');
        proof {
            assert(colon@ =~= seq![':']);
        }
        match rfind_pat(matched, &colon) {
            Some(ci) => {
                let n = matched.len();
                proof {
                    crate::chars::lemma_rfind_some(matched@, seq![':'], ci as int);
                }
                let sp = subvec(matched, ci + 1, n);
                proof {
                    assert(sp@ =~= matched@.skip(ci + 1));
                }
                match validate(&sp, matched) {
                    Some(e) => Err(e),
                    None => Ok(parse(&sp)),
                }
            },
            None => Ok(
                FormatSpec {
                    align: None,
                    sign: None,
                    hashtag: false,
                    zero: false,
                    width: None,
                    precision: None,
                    types: None,
                },
            ),
        }
    }
}

// --- formatting ---

/// The width to pad to, zero when none was given.
pub open spec fn width_or_zero(f: SpecFmt) -> nat {
    match f.width {
        Some(w) => w as nat,
        None => 0,
    }
}

/// Alignment applied to rendered text. With an explicit fill the text is
/// first trimmed of whitespace; padding splits around centred text with the
/// odd character on the right.
pub open spec fn apply_align(f: SpecFmt, s: Seq<char>) -> Seq<char> {
    match f.align {
        Some((Some(fill), a)) => {
            let t = trim(s);
            let cc = t.len();
            let w = width_or_zero(f);
            if w > cc {
                if a == '<' {
                    t + char_repeat(fill, (w - cc) as nat)
                } else if a == '^' {
                    char_repeat(fill, ((w - cc) / 2) as nat) + t + char_repeat(
                        fill,
                        (w - cc - (w - cc) / 2) as nat,
                    )
                } else if a == '>' {
                    char_repeat(fill, (w - cc) as nat) + t
                } else {
                    t
                }
            } else {
                t
            }
        },
        Some((None, a)) => {
            let cc = s.len();
            let w = width_or_zero(f);
            if w > cc {
                if a == '<' {
                    s + char_repeat(' ', (w - cc) as nat)
                } else if a == '^' {
                    char_repeat(' ', ((w - cc) / 2) as nat) + s + char_repeat(
                        ' ',
                        (w - cc - (w - cc) / 2) as nat,
                    )
                } else if a == '>' {
                    char_repeat(' ', (w - cc) as nat) + s
                } else {
                    s
                }
            } else {
                s
            }
        },
        None => s,
    }
}

/// Width applied to rendered text. Number-shaped text is padded on the left,
/// with zeros placed after any leading sign when the zero flag is set; other
/// text is padded on the right, or on the left with zeros under the flag.
pub open spec fn apply_width(f: SpecFmt, s: Seq<char>) -> Seq<char> {
    match f.width {
        None => s,
        Some(w0) => {
            let w = w0 as nat;
            let cc = s.len();
            if is_number_text(s) {
                if f.zero && w > cc {
                    if f.sign == Some('+') && is_positive_number_text(s) {
                        seq!['+'] + char_repeat('0', (w - cc - 1) as nat) + s
                    } else if s.len() > 0 && s[0] == '-' {
                        seq!['-'] + char_repeat('0', (w - cc) as nat) + s.skip(1)
                    } else {
                        char_repeat('0', (w - cc) as nat) + s
                    }
                } else if w > cc {
                    char_repeat(' ', (w - cc) as nat) + s
                } else {
                    s
                }
            } else {
                if w > cc {
                    if f.zero {
                        char_repeat('0', (w - cc) as nat) + s
                    } else {
                        s + char_repeat(' ', (w - cc) as nat)
                    }
                } else {
                    s
                }
            }
        },
    }
}

/// The full rendering of `v` under the specification `f`: precision first,
/// then either the debug rendering when the type token asks for it, or the
/// plus sign, alignment and width applied in order.
pub open spec fn spec_format(f: SpecFmt, v: Value) -> Seq<char> {
    if f.types == Some(seq!['?']) {
        spec_debug(v)
    } else {
        let base = match f.precision {
            Some(p) => spec_display_prec(v, p as nat),
            None => spec_display(v),
        };
        let signed = if f.sign == Some('+') && !f.zero && is_positive_number_text(base) {
            seq!['+'] + base
        } else {
            base
        };
        apply_width(f, apply_align(f, signed))
    }
}

impl FormatSpec {
    /// Render `value` under this specification, as `spec_format` describes
    /// it.
    pub fn format(&self, value: &Value) -> (r: String)
        ensures
            r@ == spec_format(self@, *value),
    {
        if let Some(t) = &self.types {
            let tv = str_to_chars(t.as_str());
            if tv.len() == 1 && tv[0] == '?' {
                proof {
                    assert(t@ =~= seq!['?']);
                }
                let d = render_debug(value);
                return chars_to_string(&d);
            }
            proof {
                if t@ == seq!['?'] {
                    assert(tv@.len() == 1 && tv@[0] == '?');
                }
            }
        }
        let base = match self.precision {
            Some(p) => render_display_prec(value, p),
            None => render_display(value),
        };
        let mut cur = base;
        let plus_wanted = match self.sign {
            Some(sg) => sg == '+',
            None => false,
        };
        if plus_wanted && !self.zero && is_positive_number_exec(&cur) {
            let mut signed: Vec<char> = Vec::new();
            signed.push('+');
            push_all(&mut signed, &cur);
            proof {
                assert(signed@ =~= seq!['+'] + cur@);
            }
            cur = signed;
        }
        let cur = self.align_exec(cur);
        let cur = self.width_exec(cur);
        chars_to_string(&cur)
    }

    /// Apply the alignment step.
    fn align_exec(&self, s: Vec<char>) -> (r: Vec<char>)
        ensures
            r@ == apply_align(self@, s@),
    {
        let w = match self.width {
            Some(w0) => w0,
            None => 0,
        };
        match &self.align {
            Some((fill_opt, a)) => {
                match fill_opt {
                    Some(fill) => {
                        let t = trim_exec(&s);
                        let cc = t.len();
                        if w > cc {
                            let av = *a;
                            if av == '<' {
                                let mut out = t;
                                let pad = repeat_char(*fill, w - cc);
                                push_all(&mut out, &pad);
                                out
                            } else if av == '^' {
                                let left = (w - cc) / 2;
                                let mut out = repeat_char(*fill, left);
                                push_all(&mut out, &t);
                                let pad = repeat_char(*fill, w - cc - left);
                                push_all(&mut out, &pad);
                                out
                            } else if av == '>' {
                                let mut out = repeat_char(*fill, w - cc);
                                push_all(&mut out, &t);
                                out
                            } else {
                                t
                            }
                        } else {
                            t
                        }
                    },
                    None => {
                        let cc = s.len();
                        if w > cc {
                            let av = *a;
                            if av == '<' {
                                let mut out = s;
                                let pad = repeat_char(' ', w - cc);
                                push_all(&mut out, &pad);
                                out
                            } else if av == '^' {
                                let left = (w - cc) / 2;
                                let mut out = repeat_char(' ', left);
                                push_all(&mut out, &s);
                                let pad = repeat_char(' ', w - cc - left);
                                push_all(&mut out, &pad);
                                out
                            } else if av == '>' {
                                let mut out = repeat_char(' ', w - cc);
                                push_all(&mut out, &s);
                                out
                            } else {
                                s
                            }
                        } else {
                            s
                        }
                    },
                }
            },
            None => s,
        }
    }

    /// Apply the width step.
    fn width_exec(&self, s: Vec<char>) -> (r: Vec<char>)
        ensures
            r@ == apply_width(self@, s@),
    {
        match self.width {
            None => s,
            Some(w) => {
                let cc = s.len();
                let numeric = is_number_exec(&s);
                if numeric {
                    if self.zero && w > cc {
                        let plus_flag = match self.sign {
                            Some(sg) => sg == '+',
                            None => false,
                        };
                        if plus_flag && is_positive_number_exec(&s) {
                            let mut out: Vec<char> = Vec::new();
                            out.push('+');
                            let pad = repeat_char('0', w - cc - 1);
                            push_all(&mut out, &pad);
                            push_all(&mut out, &s);
                            proof {
                                assert(out@ =~= seq!['+'] + char_repeat('0', (w - cc - 1) as nat)
                                    + s@);
                            }
                            out
                        } else if s.len() > 0 && s[0] == '-' {
                            let mut out: Vec<char> = Vec::new();
                            out.push('-');
                            let pad = repeat_char('0', w - cc);
                            push_all(&mut out, &pad);
                            let tail = subvec(&s, 1, s.len());
                            push_all(&mut out, &tail);
                            proof {
                                assert(tail@ =~= s@.skip(1));
                                assert(out@ =~= seq!['-'] + char_repeat('0', (w - cc) as nat)
                                    + s@.skip(1));
                            }
                            out
                        } else {
                            let mut out = repeat_char('0', w - cc);
                            push_all(&mut out, &s);
                            out
                        }
                    } else if w > cc {
                        let mut out = repeat_char(' ', w - cc);
                        push_all(&mut out, &s);
                        out
                    } else {
                        s
                    }
                } else {
                    if w > cc {
                        if self.zero {
                            let mut out = repeat_char('0', w - cc);
                            push_all(&mut out, &s);
                            out
                        } else {
                            let mut out = s;
                            let pad = repeat_char(' ', w - cc);
                            push_all(&mut out, &pad);
                            out
                        }
                    } else {
                        s
                    }
                }
            },
        }
    }
}


// --- the unsupported-token guarantee ---

/// The tokens this engine declines to implement: `$` argument selection,
/// `.*` width and precision, and the octal, hex, pointer, binary and
/// exponent markers.
pub open spec fn has_unsupported_token(s: Seq<char>) -> bool {
    fc(s, '$') is Some || find_from(s, seq!['.', '*'], 0) is Some || fc(s, 'o') is Some || fc(
        s,
        'x',
    ) is Some || fc(s, 'X') is Some || fc(s, 'p') is Some || fc(s, 'b') is Some || fc(s, 'e')
        is Some || fc(s, 'E') is Some
}

/// A specification text that still holds an unsupported token once its
/// fill character is set aside never passes validation, so it never
/// silently formats. (The fill is set aside first: the `x` in `{:x<5}` is a
/// fill character, not a format token.)
pub proof fn lemma_unsupported_token_refused(sp: Seq<char>, ph: Seq<char>)
    requires
        has_unsupported_token(despec(sp)),
    ensures
        spec_validate(sp, ph) is Some,
{
}

/// A placeholder whose extracted specification text holds an
/// unsupported token, its fill set aside, never constructs a format
/// specification.
pub proof fn lemma_unsupported_never_constructs(matched: Seq<char>)
    requires
        rfind(matched, seq![':']) is Some,
        has_unsupported_token(despec(matched.skip(opt_val(rfind(matched, seq![':'])) + 1))),
    ensures
        spec_fs_new(matched) is Err,
{
    let ci = opt_val(rfind(matched, seq![':']));
    lemma_unsupported_token_refused(matched.skip(ci + 1), matched);
}

} // verus!
