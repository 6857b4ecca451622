//! Template scanning: brace escaping, positional numbering and name
//! discovery.
//!
//! Construction rewrites the raw text in stages. Escaped braces become
//! bracketed sentinels so later scans never mistake them for placeholder
//! delimiters; anonymous markers `{}` and `{:` receive position numbers,
//! skipping numbers already claimed by explicit placeholders; and a
//! left-to-right scan collects the placeholder names in order of appearance.

use vstd::prelude::*;
use crate::chars::count_char;
use crate::chars::count_char_exec;
use crate::chars::find_from;
use crate::chars::lemma_find_from_some;
use crate::chars::match_at;
use crate::chars::replace_all;
use crate::chars::replace_all_exec;
use crate::chars::subvec;
use crate::chars::push_all;
use crate::numeric::all_digits;
use crate::numeric::dec_digits;
use crate::numeric::dec_value;
use crate::numeric::find_char;
use crate::numeric::lemma_dec_digits;
use crate::numeric::usize_to_chars;
use crate::format_spec::cut_at_space;

verus! {

// --- sentinels ---

/// The sentinel an escaped opening brace becomes.
pub open spec fn open_sentinel() -> Seq<char> {
    seq!['[', 'c', 'u', 'r', 'l', 'y', '=', 'o', 'p', 'e', 'n', ']']
}

/// The sentinel an escaped closing brace becomes.
pub open spec fn close_sentinel() -> Seq<char> {
    seq!['[', 'c', 'u', 'r', 'l', 'y', '=', 'c', 'l', 'o', 's', 'e', ']']
}

/// The opening sentinel as a vector.
pub(crate) fn open_sentinel_exec() -> (r: Vec<char>)
    ensures
        r@ == open_sentinel(),
{
    let mut v: Vec<char> = Vec::new();
    v.push('[');
    v.push('c');
    v.push('u');
    v.push('r');
    v.push('l');
    v.push('y');
    v.push('=');
    v.push('o');
    v.push('p');
    v.push('e');
    v.push('n');
    v.push(']');
    proof {
        assert(v@ =~= open_sentinel());
    }
    v
}

/// The closing sentinel as a vector.
pub(crate) fn close_sentinel_exec() -> (r: Vec<char>)
    ensures
        r@ == close_sentinel(),
{
    let mut v: Vec<char> = Vec::new();
    v.push('[');
    v.push('c');
    v.push('u');
    v.push('r');
    v.push('l');
    v.push('y');
    v.push('=');
    v.push('c');
    v.push('l');
    v.push('o');
    v.push('s');
    v.push('e');
    v.push(']');
    proof {
        assert(v@ =~= close_sentinel());
    }
    v
}

// --- escaping ---

/// Escaping of opening braces: every `{{`, scanning left to right, becomes
/// the opening sentinel.
pub open spec fn esc_open(s: Seq<char>) -> Seq<char>
    decreases s.len(),
{
    if s.len() >= 2 && s[0] == '{' && s[1] == '{' {
        open_sentinel() + esc_open(s.skip(2))
    } else if s.len() == 0 {
        Seq::empty()
    } else {
        seq![s[0]] + esc_open(s.skip(1))
    }
}

/// Escaping of closing braces: every `}}`, rightmost first, becomes the
/// closing sentinel.
pub open spec fn esc_close(s: Seq<char>) -> Seq<char>
    decreases s.len(),
{
    if s.len() >= 2 && s[s.len() - 2] == '}' && s[s.len() - 1] == '}' {
        esc_close(s.take(s.len() - 2)) + close_sentinel()
    } else if s.len() == 0 {
        Seq::empty()
    } else {
        esc_close(s.take(s.len() - 1)) + seq![s[s.len() - 1]]
    }
}

/// Both escaping passes: opening braces first, then closing ones.
pub open spec fn escape(s: Seq<char>) -> Seq<char> {
    esc_close(esc_open(s))
}

/// Unescaping: both sentinels back to single braces.
pub open spec fn unescape(s: Seq<char>) -> Seq<char> {
    replace_all(replace_all(s, open_sentinel(), seq!['{']), close_sentinel(), seq!['}'])
}

/// Escape opening braces, as `esc_open` describes it.
fn esc_open_exec(v: &Vec<char>) -> (r: Vec<char>)
    ensures
        r@ == esc_open(v@),
{
    let sent = open_sentinel_exec();
    let mut out: Vec<char> = Vec::new();
    let mut i: usize = 0;
    proof {
        assert(v@.skip(0) =~= v@);
    }
    loop
        invariant
            i <= v@.len(),
            sent@ == open_sentinel(),
            esc_open(v@) == out@ + esc_open(v@.skip(i as int)),
        decreases v@.len() - i,
    {
        if v.len() - i >= 2 && v[i] == '{' && v[i + 1] == '{' {
            let ghost prev = out@;
            push_all(&mut out, &sent);
            proof {
                assert(v@.skip(i as int).skip(2) =~= v@.skip(i + 2));
                assert(prev + (open_sentinel() + esc_open(v@.skip(i + 2))) =~= out@ + esc_open(
                    v@.skip(i + 2),
                ));
            }
            i = i + 2;
        } else if i < v.len() {
            let ghost prev = out@;
            out.push(v[i]);
            proof {
                assert(v@.skip(i as int).skip(1) =~= v@.skip(i + 1));
                assert(prev + (seq![v@[i as int]] + esc_open(v@.skip(i + 1))) =~= out@ + esc_open(
                    v@.skip(i + 1),
                ));
            }
            i = i + 1;
        } else {
            proof {
                assert(out@ + esc_open(v@.skip(i as int)) =~= out@);
            }
            return out;
        }
    }
}

/// Escape closing braces, as `esc_close` describes it.
fn esc_close_exec(v: &Vec<char>) -> (r: Vec<char>)
    ensures
        r@ == esc_close(v@),
    decreases v@.len(),
{
    let n = v.len();
    if n >= 2 && v[n - 2] == '}' && v[n - 1] == '}' {
        let head = subvec(v, 0, n - 2);
        proof {
            assert(head@ =~= v@.take(n - 2));
        }
        let mut out = esc_close_exec(&head);
        let sent = close_sentinel_exec();
        push_all(&mut out, &sent);
        out
    } else if n == 0 {
        Vec::new()
    } else {
        let head = subvec(v, 0, n - 1);
        proof {
            assert(head@ =~= v@.take(n - 1));
        }
        let mut out = esc_close_exec(&head);
        out.push(v[n - 1]);
        proof {
            assert(out@ =~= esc_close(v@.take(n - 1)) + seq![v@[n - 1]]);
        }
        out
    }
}

/// Escape both brace forms, as `escape` describes it.
pub(crate) fn escape_exec(v: &Vec<char>) -> (r: Vec<char>)
    ensures
        r@ == escape(v@),
{
    let opened = esc_open_exec(v);
    esc_close_exec(&opened)
}

/// Turn both sentinels back into braces, as `unescape` describes it.
pub(crate) fn unescape_exec(v: &Vec<char>) -> (r: Vec<char>)
    ensures
        r@ == unescape(v@),
{
    let so = open_sentinel_exec();
    let sc = close_sentinel_exec();
    let mut ob: Vec<char> = Vec::new();
    ob.push('{');
    let mut cb: Vec<char> = Vec::new();
    cb.push('}');
    proof {
        assert(ob@ =~= seq!['{']);
        assert(cb@ =~= seq!['}']);
    }
    let step = replace_all_exec(v, &so, &ob);
    replace_all_exec(&step, &sc, &cb)
}

// --- name views ---

/// The views of a sequence of character vectors.
pub open spec fn views_of(v: Seq<Vec<char>>) -> Seq<Seq<char>> {
    Seq::new(v.len(), |i: int| v[i]@)
}

// --- positional numbering ---

/// `s` is canonical digit text: non-empty, digits only, no leading zero.
pub open spec fn canon_value(s: Seq<char>) -> Option<nat> {
    if s.len() >= 1 && all_digits(s) && (s.len() == 1 || s[0] != '0') {
        Some(dec_value(s))
    } else {
        None
    }
}

/// The largest position number any claimed name spells.
pub open spec fn max_claimed(claimed: Seq<Seq<char>>) -> nat
    decreases claimed.len(),
{
    if claimed.len() == 0 {
        0
    } else {
        let rest = max_claimed(claimed.drop_first());
        match canon_value(claimed[0]) {
            Some(v) => if v > rest {
                v
            } else {
                rest
            },
            None => rest,
        }
    }
}

/// A claimed position number is bounded by `max_claimed`.
proof fn lemma_claimed_le_max(claimed: Seq<Seq<char>>, v: nat)
    requires
        claimed.contains(dec_digits(v)),
    ensures
        v <= max_claimed(claimed),
    decreases claimed.len(),
{
    lemma_dec_digits(v);
    if claimed.len() > 0 {
        if claimed[0] == dec_digits(v) {
            assert(canon_value(claimed[0]) == Some(v));
        } else {
            let i = choose|i: int| 0 <= i < claimed.len() && claimed[i] == dec_digits(v);
            assert(claimed.drop_first()[i - 1] == dec_digits(v));
            assert(claimed.drop_first().contains(dec_digits(v)));
            lemma_claimed_le_max(claimed.drop_first(), v);
        }
    }
}

/// The first position number at or after `pos` whose decimal text no
/// claimed name spells.
pub open spec fn first_free(pos: nat, claimed: Seq<Seq<char>>) -> nat
    decreases max_claimed(claimed) + 1 - pos,
    via first_free_dec
{
    if claimed.contains(dec_digits(pos)) {
        first_free(pos + 1, claimed)
    } else {
        pos
    }
}

#[via_fn]
proof fn first_free_dec(pos: nat, claimed: Seq<Seq<char>>) {
    if claimed.contains(dec_digits(pos)) {
        lemma_claimed_le_max(claimed, pos);
    }
}

/// Different numbers spell different decimal texts.
proof fn lemma_digits_injective(a: nat, b: nat)
    requires
        a != b,
    ensures
        dec_digits(a) != dec_digits(b),
{
    lemma_dec_digits(a);
    lemma_dec_digits(b);
}

/// Numbering of anonymous markers: each `{}` or `{:` receives the first
/// free position number, and numbering continues after it.
pub open spec fn renumber(s: Seq<char>, pos: nat, claimed: Seq<Seq<char>>) -> Seq<char>
    decreases s.len(),
{
    if s.len() >= 2 && s[0] == '{' && s[1] == '}' {
        let p = first_free(pos, claimed);
        seq!['{'] + dec_digits(p) + seq!['}'] + renumber(s.skip(2), p + 1, claimed)
    } else if s.len() >= 2 && s[0] == '{' && s[1] == ':' {
        let p = first_free(pos, claimed);
        seq!['{'] + dec_digits(p) + seq![':'] + renumber(s.skip(2), p + 1, claimed)
    } else if s.len() == 0 {
        Seq::empty()
    } else {
        seq![s[0]] + renumber(s.skip(1), pos, claimed)
    }
}

/// Whether some claimed name is exactly this digit text.
fn claimed_contains(claimed: &Vec<Vec<char>>, digits: &Vec<char>) -> (r: bool)
    ensures
        r == views_of(claimed@).contains(digits@),
{
    let mut j: usize = 0;
    while j < claimed.len()
        invariant
            j <= claimed@.len(),
            forall|k: int| 0 <= k < j ==> views_of(claimed@)[k] != digits@,
        decreases claimed@.len() - j,
    {
        if eq_chars(&claimed[j], digits) {
            proof {
                assert(views_of(claimed@)[j as int] == digits@);
            }
            return true;
        }
        j = j + 1;
    }
    proof {
        if views_of(claimed@).contains(digits@) {
            let k = choose|k: int|
                0 <= k < views_of(claimed@).len() && views_of(claimed@)[k] == digits@;
            assert(views_of(claimed@)[k] != digits@);
        }
    }
    false
}

/// Character-vector equality.
fn eq_chars(a: &Vec<char>, b: &Vec<char>) -> (r: bool)
    ensures
        r == (a@ == b@),
{
    if a.len() != b.len() {
        return false;
    }
    let mut i: usize = 0;
    while i < a.len()
        invariant
            i <= a@.len(),
            a@.len() == b@.len(),
            forall|k: int| 0 <= k < i ==> a@[k] == b@[k],
        decreases a@.len() - i,
    {
        if a[i] != b[i] {
            return false;
        }
        i = i + 1;
    }
    proof {
        assert(a@ =~= b@);
    }
    true
}

/// Find the first free position number at or after `pos`. The ghost set
/// `avail` carries the claimed numbers not yet passed; its size pays for
/// every skipped number, which bounds the counter.
fn first_free_exec(
    pos: usize,
    claimed: &Vec<Vec<char>>,
    Ghost(avail): Ghost<Set<Seq<char>>>,
) -> (r: (usize, Ghost<Set<Seq<char>>>))
    requires
        avail.finite(),
        forall|v: nat|
            pos <= v && views_of(claimed@).contains(#[trigger] dec_digits(v)) ==> avail.contains(
                dec_digits(v),
            ),
        pos + avail.len() + 1 <= usize::MAX,
    ensures
        r.0 as nat == first_free(pos as nat, views_of(claimed@)),
        pos <= r.0,
        r.1@.finite(),
        r.0 + r.1@.len() == pos + avail.len(),
        forall|v: nat|
            r.0 <= v && views_of(claimed@).contains(#[trigger] dec_digits(v)) ==> r.1@.contains(
                dec_digits(v),
            ),
{
    let ghost cl = views_of(claimed@);
    let mut cur: usize = pos;
    let ghost mut av = avail;
    loop
        invariant
            pos <= cur,
            av.finite(),
            cur + av.len() == pos + avail.len(),
            pos + avail.len() + 1 <= usize::MAX,
            first_free(pos as nat, cl) == first_free(cur as nat, cl),
            cl == views_of(claimed@),
            forall|v: nat|
                cur <= v && cl.contains(#[trigger] dec_digits(v)) ==> av.contains(dec_digits(v)),
        decreases av.len(),
    {
        let digits = usize_to_chars(cur);
        if claimed_contains(claimed, &digits) {
            proof {
                assert(cl.contains(dec_digits(cur as nat)));
                assert(av.contains(dec_digits(cur as nat)));
                av = av.remove(dec_digits(cur as nat));
                assert forall|v: nat|
                    cur + 1 <= v && cl.contains(#[trigger] dec_digits(v)) implies av.contains(
                    dec_digits(v),
                ) by {
                    lemma_digits_injective(v, cur as nat);
                }
            }
            cur = cur + 1;
        } else {
            proof {
                assert(first_free(cur as nat, cl) == cur as nat);
            }
            return (cur, Ghost(av));
        }
    }
}

/// Rewrite every anonymous marker to a numbered one, as `renumber`
/// describes it. The claimed names must leave room for the counter: at most
/// half the text length, as discovery guarantees.
pub(crate) fn renumber_exec(s: &Vec<char>, claimed: &Vec<Vec<char>>) -> (r: Vec<char>)
    requires
        2 * claimed@.len() <= s@.len(),
    ensures
        r@ == renumber(s@, 0, views_of(claimed@)),
{
    let ghost cl = views_of(claimed@);
    let mut out: Vec<char> = Vec::new();
    let mut i: usize = 0;
    let mut pos: usize = 0;
    let ghost mut av = cl.to_set();
    let ghost mut subs: nat = 0;
    proof {
        assert(s@.skip(0) =~= s@);
        lemma_to_set_size(cl);
    }
    loop
        invariant
            i <= s@.len(),
            cl == views_of(claimed@),
            2 * claimed@.len() <= s@.len(),
            av.finite(),
            renumber(s@, 0, cl) == out@ + renumber(s@.skip(i as int), pos as nat, cl),
            forall|v: nat|
                pos <= v && cl.contains(#[trigger] dec_digits(v)) ==> av.contains(dec_digits(v)),
            pos + av.len() <= cl.len() + subs,
            2 * subs <= i,
        decreases s@.len() - i,
    {
        let n = s.len();
        if n - i >= 2 && s[i] == '{' && (s[i + 1] == '}' || s[i + 1] == ':') {
            proof {
                assert(pos + av.len() + 1 <= usize::MAX) by {
                    assert(cl.len() == claimed@.len());
                    assert(2 * (pos + av.len()) <= 2 * cl.len() + 2 * subs);
                    assert(i <= s@.len() - 2);
                    assert(2 * (pos + av.len()) <= s@.len() + s@.len() - 2);
                    assert(pos + av.len() <= s@.len() - 1);
                }
            }
            let (p, Ghost(av2)) = first_free_exec(pos, claimed, Ghost(av));
            proof {
                av = av2;
            }
            let ghost prev = out@;
            out.push('{');
            let digits = usize_to_chars(p);
            push_all(&mut out, &digits);
            let closer = s[i + 1];
            out.push(closer);
            proof {
                assert(s@.skip(i as int).skip(2) =~= s@.skip(i + 2));
                if closer == '}' {
                    assert(out@ =~= prev + (seq!['{'] + dec_digits(p as nat) + seq!['}']));
                    assert(prev + (seq!['{'] + dec_digits(p as nat) + seq!['}'] + renumber(
                        s@.skip(i + 2),
                        p as nat + 1,
                        cl,
                    )) =~= out@ + renumber(s@.skip(i + 2), p as nat + 1, cl));
                } else {
                    assert(out@ =~= prev + (seq!['{'] + dec_digits(p as nat) + seq![':']));
                    assert(prev + (seq!['{'] + dec_digits(p as nat) + seq![':'] + renumber(
                        s@.skip(i + 2),
                        p as nat + 1,
                        cl,
                    )) =~= out@ + renumber(s@.skip(i + 2), p as nat + 1, cl));
                }
                subs = subs + 1;
            }
            pos = p + 1;
            i = i + 2;
        } else if i < n {
            let ghost prev = out@;
            out.push(s[i]);
            proof {
                assert(s@.skip(i as int).skip(1) =~= s@.skip(i + 1));
                assert(prev + (seq![s@[i as int]] + renumber(s@.skip(i + 1), pos as nat, cl))
                    =~= out@ + renumber(s@.skip(i + 1), pos as nat, cl));
            }
            i = i + 1;
        } else {
            proof {
                assert(out@ + renumber(s@.skip(i as int), pos as nat, cl) =~= out@);
            }
            return out;
        }
    }
}

/// A sequence's set of values is finite and no larger than the sequence.
pub proof fn lemma_to_set_size(s: Seq<Seq<char>>)
    ensures
        s.to_set().finite(),
        s.to_set().len() <= s.len(),
{
    broadcast use vstd::seq_lib::seq_to_set_is_finite;

    s.lemma_cardinality_of_set();
}

// --- discovery ---

/// The name of a placeholder span: the text up to the first colon, further
/// cut at the first space.
pub open spec fn name_of(span: Seq<char>) -> Seq<char> {
    cut_at_space(
        match find_from(span, seq![':'], 0) {
            Some(i) => span.take(i),
            None => span,
        },
    )
}

/// The placeholder names of `s`, in order of appearance: the span from each
/// first opening brace to the first closing brace after it, removed as it is
/// read. Discovery stops when the first closing brace stands before the
/// first opening one.
pub open spec fn discover(s: Seq<char>) -> Seq<Seq<char>>
    decreases s.len(),
    via discover_dec
{
    match (find_from(s, seq!['{'], 0), find_from(s, seq!['}'], 0)) {
        (Some(a), Some(b)) => {
            if b < a {
                Seq::empty()
            } else {
                seq![name_of(s.subrange(a + 1, b))] + discover(s.take(a) + s.skip(b + 1))
            }
        },
        _ => Seq::empty(),
    }
}

#[via_fn]
proof fn discover_dec(s: Seq<char>) {
    match (find_from(s, seq!['{'], 0), find_from(s, seq!['}'], 0)) {
        (Some(a), Some(b)) => {
            if b < a {
            } else {
                lemma_find_from_some(s, seq!['{'], 0, a);
                lemma_find_from_some(s, seq!['}'], 0, b);
            }
        },
        _ => {},
    }
}

/// Discovery never finds more names than half the text length: each found
/// name consumes a span of at least two characters.
pub proof fn lemma_discover_len(s: Seq<char>)
    ensures
        2 * discover(s).len() <= s.len(),
    decreases s.len(),
{
    match (find_from(s, seq!['{'], 0), find_from(s, seq!['}'], 0)) {
        (Some(a), Some(b)) => {
            if b < a {
            } else {
                lemma_find_from_some(s, seq!['{'], 0, a);
                lemma_find_from_some(s, seq!['}'], 0, b);
                assert(s.subrange(a, a + 1)[0] == s[a]);
                assert(s.subrange(b, b + 1)[0] == s[b]);
                assert(a != b);
                let rest = s.take(a) + s.skip(b + 1);
                assert(rest.len() == s.len() - (b - a + 1));
                lemma_discover_len(rest);
            }
        },
        _ => {},
    }
}

/// The name of one span, as `name_of` describes it.
fn name_of_exec(span: &Vec<char>) -> (r: Vec<char>)
    ensures
        r@ == name_of(span@),
{
    let head = match find_char(span, ':', 0) {
        Some(i) => {
            proof {
                lemma_find_from_some(span@, seq![':'], 0, i as int);
            }
            let t = subvec(span, 0, i);
            proof {
                assert(t@ =~= span@.take(i as int));
            }
            t
        },
        None => {
            let t = subvec(span, 0, span.len());
            proof {
                assert(t@ =~= span@);
            }
            t
        },
    };
    match find_char(&head, ' ', 0) {
        Some(i) => {
            proof {
                lemma_find_from_some(head@, seq![' '], 0, i as int);
            }
            let t = subvec(&head, 0, i);
            proof {
                assert(t@ =~= head@.take(i as int));
            }
            t
        },
        None => head,
    }
}

/// Collect the placeholder names of `s`, as `discover` describes it.
pub(crate) fn discover_exec(s: &Vec<char>) -> (r: Vec<Vec<char>>)
    ensures
        views_of(r@) == discover(s@),
{
    let mut names: Vec<Vec<char>> = Vec::new();
    let mut work = subvec(s, 0, s.len());
    proof {
        assert(work@ =~= s@);
        assert(views_of(names@) =~= Seq::<Seq<char>>::empty());
        assert(discover(s@) =~= views_of(names@) + discover(work@));
    }
    loop
        invariant
            discover(s@) == views_of(names@) + discover(work@),
        decreases work@.len(),
    {
        let a = match find_char(&work, '{', 0) {
            Some(a) => a,
            None => {
                proof {
                    assert(views_of(names@) + discover(work@) =~= views_of(names@));
                }
                return names;
            },
        };
        let b = match find_char(&work, '}', 0) {
            Some(b) => b,
            None => {
                proof {
                    assert(views_of(names@) + discover(work@) =~= views_of(names@));
                }
                return names;
            },
        };
        if b < a {
            proof {
                assert(views_of(names@) + discover(work@) =~= views_of(names@));
            }
            return names;
        }
        proof {
            lemma_find_from_some(work@, seq!['{'], 0, a as int);
            lemma_find_from_some(work@, seq!['}'], 0, b as int);
            assert(work@.subrange(a as int, a + 1)[0] == work@[a as int]);
            assert(work@.subrange(b as int, b + 1)[0] == work@[b as int]);
            assert(a != b);
        }
        let span = subvec(&work, a + 1, b);
        proof {
            assert(span@ =~= work@.subrange(a + 1, b as int));
        }
        let name = name_of_exec(&span);
        let ghost prev_names = names@;
        let ghost prev_work = work@;
        names.push(name);
        let wn = work.len();
        let mut next = subvec(&work, 0, a);
        let tail = subvec(&work, b + 1, wn);
        push_all(&mut next, &tail);
        proof {
            assert(next@ =~= prev_work.take(a as int) + prev_work.skip(b + 1));
        }
        work = next;
        proof {
            assert(views_of(names@) =~= views_of(prev_names).push(name_of(span@)));
            assert(discover(prev_work) == seq![name_of(span@)] + discover(work@));
            assert(views_of(prev_names) + discover(prev_work) =~= views_of(names@) + discover(
                work@,
            ));
        }
    }
}


// --- texts without placeholders ---

/// Escaping leaves text without opening braces unchanged.
pub proof fn lemma_esc_open_id(s: Seq<char>)
    requires
        forall|j: int| 0 <= j < s.len() ==> s[j] != '{',
    ensures
        esc_open(s) == s,
    decreases s.len(),
{
    if s.len() == 0 {
        assert(esc_open(s) =~= s);
    } else {
        assert(forall|j: int| 0 <= j < s.skip(1).len() ==> s.skip(1)[j] != '{');
        lemma_esc_open_id(s.skip(1));
        assert(seq![s[0]] + s.skip(1) =~= s);
    }
}

/// Escaping leaves text without closing braces unchanged.
pub proof fn lemma_esc_close_id(s: Seq<char>)
    requires
        forall|j: int| 0 <= j < s.len() ==> s[j] != '}',
    ensures
        esc_close(s) == s,
    decreases s.len(),
{
    if s.len() == 0 {
        assert(esc_close(s) =~= s);
    } else {
        assert(forall|j: int|
            0 <= j < s.take(s.len() - 1).len() ==> (#[trigger] s.take(s.len() - 1)[j]) != '}');
        lemma_esc_close_id(s.take(s.len() - 1));
        assert(s.take(s.len() - 1) + seq![s[s.len() - 1]] =~= s);
    }
}

/// Numbering leaves text without opening braces unchanged.
pub proof fn lemma_renumber_id(s: Seq<char>, pos: nat, claimed: Seq<Seq<char>>)
    requires
        forall|j: int| 0 <= j < s.len() ==> s[j] != '{',
    ensures
        renumber(s, pos, claimed) == s,
    decreases s.len(),
{
    if s.len() == 0 {
        assert(renumber(s, pos, claimed) =~= s);
    } else {
        assert(forall|j: int| 0 <= j < s.skip(1).len() ==> s.skip(1)[j] != '{');
        lemma_renumber_id(s.skip(1), pos, claimed);
        assert(seq![s[0]] + s.skip(1) =~= s);
    }
}

/// Discovery finds nothing in text without opening braces.
pub proof fn lemma_discover_empty(s: Seq<char>)
    requires
        forall|j: int| 0 <= j < s.len() ==> s[j] != '{',
    ensures
        discover(s) == Seq::<Seq<char>>::empty(),
{
    crate::numeric::lemma_find_none(s, '{');
}

/// Unescaping leaves text without opening brackets unchanged: neither
/// sentinel can occur in it.
pub proof fn lemma_unescape_id(s: Seq<char>)
    requires
        forall|j: int| 0 <= j < s.len() ==> s[j] != '[',
    ensures
        unescape(s) == s,
{
    crate::chars::lemma_replace_all_id(s, open_sentinel(), seq!['{']);
    crate::chars::lemma_replace_all_id(s, close_sentinel(), seq!['}']);
}

} // verus!
