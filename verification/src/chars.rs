//! Text primitives shared by the whole engine.
//!
//! Template text is handled as a vector of characters; these are the
//! searching, slicing and rewriting operations the engine is built from,
//! each one specified against its mathematical counterpart on `Seq<char>`.

use vstd::prelude::*;

verus! {

// --- substring matching ---

/// `pat` occurs in `s` starting at index `i`.
pub open spec fn match_at(s: Seq<char>, pat: Seq<char>, i: int) -> bool {
    0 <= i && i + pat.len() <= s.len() && s.subrange(i, i + pat.len() as int) == pat
}

/// Index of the first occurrence of `pat` in `s` at or after `i`, if any.
/// An empty pattern matches immediately.
pub open spec fn find_from(s: Seq<char>, pat: Seq<char>, i: int) -> Option<int>
    decreases s.len() - i,
    when 0 <= i
{
    if i + pat.len() > s.len() {
        None
    } else if pat.len() == 0 {
        Some(i)
    } else if match_at(s, pat, i) {
        Some(i)
    } else {
        find_from(s, pat, i + 1)
    }
}

/// What a found index means: it is the first match at or after `from`.
pub proof fn lemma_find_from_some(s: Seq<char>, pat: Seq<char>, from: int, i: int)
    requires
        0 <= from,
        find_from(s, pat, from) == Some(i),
    ensures
        from <= i,
        i + pat.len() <= s.len(),
        match_at(s, pat, i),
        forall|k: int| from <= k < i ==> !match_at(s, pat, k),
    decreases s.len() - from,
{
    if pat.len() == 0 {
        assert(s.subrange(i, i) =~= pat);
    } else if from + pat.len() > s.len() {
    } else if match_at(s, pat, from) {
    } else {
        lemma_find_from_some(s, pat, from + 1, i);
    }
}

/// Index of the last occurrence of `pat` in `s` starting at or before `i`, if any.
pub open spec fn rfind_at(s: Seq<char>, pat: Seq<char>, i: int) -> Option<int>
    decreases i + 1,
    when i < s.len()
{
    if i < 0 {
        None
    } else if match_at(s, pat, i) {
        Some(i)
    } else {
        rfind_at(s, pat, i - 1)
    }
}

/// Index of the last occurrence of `pat` in `s`, if any.
pub open spec fn rfind(s: Seq<char>, pat: Seq<char>) -> Option<int> {
    if s.len() == 0 {
        None
    } else {
        rfind_at(s, pat, s.len() - 1)
    }
}

/// What a found index from the back means.
pub proof fn lemma_rfind_at_some(s: Seq<char>, pat: Seq<char>, i: int, j: int)
    requires
        i < s.len(),
        rfind_at(s, pat, i) == Some(j),
    ensures
        0 <= j <= i,
        match_at(s, pat, j),
    decreases i + 1,
{
    if i < 0 {
    } else if match_at(s, pat, i) {
    } else {
        lemma_rfind_at_some(s, pat, i - 1, j);
    }
}

/// What a found index from `rfind` means.
pub proof fn lemma_rfind_some(s: Seq<char>, pat: Seq<char>, j: int)
    requires
        rfind(s, pat) == Some(j),
    ensures
        0 <= j,
        j + pat.len() <= s.len(),
        match_at(s, pat, j),
{
    lemma_rfind_at_some(s, pat, s.len() - 1, j);
}

// --- exec counterparts ---

/// Whether `pat` occurs in `hay` starting at `i`.
pub(crate) fn match_at_exec(hay: &Vec<char>, pat: &Vec<char>, i: usize) -> (r: bool)
    requires
        i + pat@.len() <= hay@.len(),
    ensures
        r == match_at(hay@, pat@, i as int),
{
    let n = hay.len();
    let m = pat.len();
    let mut j: usize = 0;
    loop
        invariant
            j <= m,
            m == pat@.len(),
            n == hay@.len(),
            i + pat@.len() <= hay@.len(),
            forall|k: int| 0 <= k < j ==> hay@[i + k] == pat@[k],
        decreases pat@.len() - j,
    {
        if j == pat.len() {
            proof {
                assert(hay@.subrange(i as int, i + pat@.len()) =~= pat@);
            }
            return true;
        }
        if hay[i + j] != pat[j] {
            proof {
                if match_at(hay@, pat@, i as int) {
                    assert(hay@.subrange(i as int, i + pat@.len())[j as int] == pat@[j as int]);
                }
            }
            return false;
        }
        j = j + 1;
    }
}

/// First occurrence of `pat` in `hay` at or after `from`.
pub(crate) fn find_pat(hay: &Vec<char>, pat: &Vec<char>, from: usize) -> (r: Option<usize>)
    requires
        from <= hay@.len(),
        pat@.len() > 0,
    ensures
        match r {
            Some(i) => from <= i && find_from(hay@, pat@, from as int) == Some(i as int),
            None => find_from(hay@, pat@, from as int) is None,
        },
{
    let mut i: usize = from;
    loop
        invariant
            from <= i <= hay@.len(),
            pat@.len() > 0,
            find_from(hay@, pat@, from as int) == find_from(hay@, pat@, i as int),
        decreases hay@.len() - i,
    {
        if hay.len() - i < pat.len() {
            return None;
        }
        if match_at_exec(hay, pat, i) {
            return Some(i);
        }
        i = i + 1;
    }
}

/// Last occurrence of `pat` in `hay`.
pub(crate) fn rfind_pat(hay: &Vec<char>, pat: &Vec<char>) -> (r: Option<usize>)
    requires
        pat@.len() > 0,
    ensures
        match r {
            Some(i) => rfind(hay@, pat@) == Some(i as int),
            None => rfind(hay@, pat@) is None,
        },
{
    if hay.len() == 0 {
        return None;
    }
    let mut i: usize = hay.len() - 1;
    loop
        invariant
            i < hay@.len(),
            rfind(hay@, pat@) == rfind_at(hay@, pat@, i as int),
        decreases i,
    {
        if hay.len() - i >= pat.len() && match_at_exec(hay, pat, i) {
            return Some(i);
        }
        proof {
            if i + pat@.len() <= hay@.len() && match_at(hay@, pat@, i as int) {
                assert(false);
            }
        }
        if i == 0 {
            return None;
        }
        i = i - 1;
    }
}

// --- building ---

/// Copy of `src[a..b]`.
pub(crate) fn subvec(src: &Vec<char>, a: usize, b: usize) -> (r: Vec<char>)
    requires
        a <= b <= src@.len(),
    ensures
        r@ == src@.subrange(a as int, b as int),
{
    let mut out: Vec<char> = Vec::new();
    let mut i: usize = a;
    while i < b
        invariant
            a <= i <= b <= src@.len(),
            out@ =~= src@.subrange(a as int, i as int),
        decreases b - i,
    {
        out.push(src[i]);
        i = i + 1;
        proof {
            assert(out@ =~= src@.subrange(a as int, i as int));
        }
    }
    out
}

/// Append all of `src` to `dst`.
pub(crate) fn push_all(dst: &mut Vec<char>, src: &Vec<char>)
    ensures
        final(dst)@ == old(dst)@ + src@,
{
    let mut i: usize = 0;
    while i < src.len()
        invariant
            i <= src@.len(),
            dst@ =~= old(dst)@ + src@.subrange(0, i as int),
        decreases src@.len() - i,
    {
        dst.push(src[i]);
        i = i + 1;
        proof {
            assert(dst@ =~= old(dst)@ + src@.subrange(0, i as int));
        }
    }
    proof {
        assert(dst@ =~= old(dst)@ + src@);
    }
}

/// `n` copies of `c`.
pub open spec fn char_repeat(c: char, n: nat) -> Seq<char> {
    Seq::new(n, |i: int| c)
}

/// Vector of `n` copies of `c`.
pub(crate) fn repeat_char(c: char, n: usize) -> (r: Vec<char>)
    ensures
        r@ == char_repeat(c, n as nat),
{
    let mut out: Vec<char> = Vec::new();
    let mut i: usize = 0;
    while i < n
        invariant
            i <= n,
            out@ =~= char_repeat(c, i as nat),
        decreases n - i,
    {
        out.push(c);
        i = i + 1;
        proof {
            assert(out@ =~= char_repeat(c, i as nat));
        }
    }
    out
}

// --- rewriting ---

/// `s` from index `i` on, with every occurrence of `pat` replaced by `sub`,
/// scanning left to right over matches that do not overlap.
pub open spec fn replace_all_from(s: Seq<char>, pat: Seq<char>, sub: Seq<char>, i: int) -> Seq<
    char,
>
    decreases s.len() - i,
    when 0 <= i && pat.len() > 0
{
    if i + pat.len() <= s.len() && match_at(s, pat, i) {
        sub + replace_all_from(s, pat, sub, i + pat.len())
    } else if i < s.len() {
        seq![s[i]] + replace_all_from(s, pat, sub, i + 1)
    } else {
        Seq::empty()
    }
}

/// `s` with every occurrence of `pat` replaced by `sub`.
pub open spec fn replace_all(s: Seq<char>, pat: Seq<char>, sub: Seq<char>) -> Seq<char> {
    replace_all_from(s, pat, sub, 0)
}

/// Rewrite every occurrence of `pat` in `hay` to `sub`.
pub(crate) fn replace_all_exec(hay: &Vec<char>, pat: &Vec<char>, sub: &Vec<char>) -> (r: Vec<char>)
    requires
        pat@.len() > 0,
    ensures
        r@ == replace_all(hay@, pat@, sub@),
{
    let mut out: Vec<char> = Vec::new();
    let mut i: usize = 0;
    loop
        invariant
            i <= hay@.len(),
            pat@.len() > 0,
            replace_all(hay@, pat@, sub@) == out@ + replace_all_from(hay@, pat@, sub@, i as int),
        decreases hay@.len() - i,
    {
        if hay.len() - i >= pat.len() && match_at_exec(hay, pat, i) {
            push_all(&mut out, sub);
            i = i + pat.len();
        } else if i < hay.len() {
            let ghost prev = out@;
            out.push(hay[i]);
            proof {
                assert(out@ =~= prev + seq![hay@[i as int]]);
                assert(prev + (seq![hay@[i as int]] + replace_all_from(
                    hay@,
                    pat@,
                    sub@,
                    i + 1,
                )) =~= out@ + replace_all_from(hay@, pat@, sub@, i + 1));
            }
            i = i + 1;
        } else {
            proof {
                assert(out@ + replace_all_from(hay@, pat@, sub@, i as int) =~= out@);
            }
            return out;
        }
    }
}

/// `s` with the first occurrence of `pat` (if any) replaced by `sub`.
pub open spec fn replace_first(s: Seq<char>, pat: Seq<char>, sub: Seq<char>) -> Seq<char> {
    match find_from(s, pat, 0) {
        Some(i) => s.subrange(0, i) + sub + s.subrange(i + pat.len(), s.len() as int),
        None => s,
    }
}

/// Rewrite the first occurrence of `pat` in `hay` to `sub`.
pub(crate) fn replace_first_exec(hay: &Vec<char>, pat: &Vec<char>, sub: &Vec<char>) -> (r: Vec<
    char,
>)
    requires
        pat@.len() > 0,
    ensures
        r@ == replace_first(hay@, pat@, sub@),
{
    match find_pat(hay, pat, 0) {
        Some(i) => {
            proof {
                lemma_find_from_some(hay@, pat@, 0, i as int);
            }
            let n = hay.len();
            let mut out = subvec(hay, 0, i);
            push_all(&mut out, sub);
            let tail = subvec(hay, i + pat.len(), n);
            push_all(&mut out, &tail);
            out
        },
        None => {
            let out = subvec(hay, 0, hay.len());
            proof {
                assert(out@ =~= hay@);
            }
            out
        },
    }
}

/// The text between an opening quote at index zero and its closing partner:
/// `v[1..k]` where `k` is the first occurrence of `q` at or after one, or
/// nothing when the quote never closes.
pub(crate) fn cut_after_quote(v: &Vec<char>, q: char) -> (r: Option<Vec<char>>)
    requires
        v@.len() >= 1,
    ensures
        match r {
            Some(t) => find_from(v@, seq![q], 1) == Some(t@.len() as int + 1) && t@ == v@.subrange(
                1,
                t@.len() as int + 1,
            ),
            None => find_from(v@, seq![q], 1) is None,
        },
{
    let mut i: usize = 1;
    loop
        invariant
            1 <= i <= v@.len(),
            find_from(v@, seq![q], 1) == find_from(v@, seq![q], i as int),
        decreases v@.len() - i,
    {
        if i == v.len() {
            return None;
        }
        if v[i] == q {
            proof {
                assert(v@.subrange(i as int, i + 1) =~= seq![q]);
            }
            let t = subvec(v, 1, i);
            proof {
                assert(t@ =~= v@.subrange(1, i as int));
            }
            return Some(t);
        }
        proof {
            if match_at(v@, seq![q], i as int) {
                assert(v@.subrange(i as int, i + 1)[0] == q);
            }
        }
        i = i + 1;
    }
}

// --- counting ---

/// Number of occurrences of `c` in `s` from index `i` on.
pub open spec fn count_char_from(s: Seq<char>, c: char, i: int) -> nat
    decreases s.len() - i,
    when 0 <= i
{
    if i < s.len() {
        (if s[i] == c {
            1nat
        } else {
            0nat
        }) + count_char_from(s, c, i + 1)
    } else {
        0nat
    }
}

/// Number of occurrences of `c` in `s`.
pub open spec fn count_char(s: Seq<char>, c: char) -> nat {
    count_char_from(s, c, 0)
}

/// Count the occurrences of `c` in `hay`.
pub(crate) fn count_char_exec(hay: &Vec<char>, c: char) -> (r: usize)
    ensures
        r as nat == count_char(hay@, c),
{
    let mut n: usize = 0;
    let mut i: usize = 0;
    loop
        invariant
            i <= hay@.len(),
            n <= i,
            count_char(hay@, c) == n + count_char_from(hay@, c, i as int),
        decreases hay@.len() - i,
    {
        if i == hay.len() {
            return n;
        }
        if hay[i] == c {
            n = n + 1;
        }
        i = i + 1;
    }
}

// --- whitespace trimming ---

/// Whitespace characters recognized when trimming.
pub open spec fn is_space(c: char) -> bool {
    c == ' ' || c == '\t' || c == '\n' || c == '\r'
}

/// `s` without leading whitespace.
pub open spec fn trim_front(s: Seq<char>) -> Seq<char>
    decreases s.len(),
{
    if s.len() > 0 && is_space(s[0]) {
        trim_front(s.skip(1))
    } else {
        s
    }
}

/// `s` without trailing whitespace.
pub open spec fn trim_back(s: Seq<char>) -> Seq<char>
    decreases s.len(),
{
    if s.len() > 0 && is_space(s[s.len() - 1]) {
        trim_back(s.take(s.len() - 1))
    } else {
        s
    }
}

/// `s` without leading or trailing whitespace.
pub open spec fn trim(s: Seq<char>) -> Seq<char> {
    trim_back(trim_front(s))
}

/// Trim whitespace from both ends of `v`.
pub(crate) fn trim_exec(v: &Vec<char>) -> (r: Vec<char>)
    ensures
        r@ == trim(v@),
{
    proof {
        assert(v@.skip(0) =~= v@);
    }
    let mut a: usize = 0;
    while a < v.len() && is_space_exec(v[a])
        invariant
            a <= v@.len(),
            trim_front(v@) == trim_front(v@.skip(a as int)),
            forall|k: int| 0 <= k < a ==> is_space(v@[k]),
        decreases v@.len() - a,
    {
        proof {
            assert(v@.skip(a as int).skip(1) =~= v@.skip(a + 1));
        }
        a = a + 1;
    }
    proof {
        assert(trim_front(v@) =~= v@.skip(a as int));
    }
    let mut b: usize = v.len();
    while b > a && is_space_exec(v[b - 1])
        invariant
            a <= b <= v@.len(),
            trim_front(v@) == v@.skip(a as int),
            trim_back(v@.skip(a as int)) == trim_back(v@.subrange(a as int, b as int)),
        decreases b,
    {
        proof {
            assert(v@.subrange(a as int, b as int).take(b - a - 1) =~= v@.subrange(
                a as int,
                b - 1,
            ));
            assert(v@.subrange(a as int, b as int).len() == b - a);
        }
        b = b - 1;
    }
    proof {
        assert(trim_back(v@.subrange(a as int, b as int)) =~= v@.subrange(a as int, b as int));
    }
    subvec(v, a, b)
}

/// Whether `c` counts as whitespace.
pub(crate) fn is_space_exec(c: char) -> (r: bool)
    ensures
        r == is_space(c),
{
    c == ' ' || c == '\t' || c == '\n' || c == '\r'
}

// --- repeated prefix stripping ---

/// `s` with every leading copy of `p` removed, as the standard library's
/// `trim_start_matches` does; an empty `p` strips nothing.
pub open spec fn strip_prefix_rep(s: Seq<char>, p: Seq<char>) -> Seq<char>
    decreases s.len(),
{
    if p.len() > 0 && p.len() <= s.len() && s.subrange(0, p.len() as int) == p {
        strip_prefix_rep(s.skip(p.len() as int), p)
    } else {
        s
    }
}

/// Remove every leading copy of `p` from `v`.
pub(crate) fn strip_prefix_rep_exec(v: &Vec<char>, p: &Vec<char>) -> (r: Vec<char>)
    ensures
        r@ == strip_prefix_rep(v@, p@),
{
    proof {
        assert(v@.skip(0) =~= v@);
    }
    let mut i: usize = 0;
    loop
        invariant
            i <= v@.len(),
            strip_prefix_rep(v@, p@) == strip_prefix_rep(v@.skip(i as int), p@),
        decreases v@.len() - i,
    {
        if p.len() > 0 && v.len() - i >= p.len() && match_at_exec(v, p, i) {
            proof {
                assert(v@.skip(i as int).subrange(0, p@.len() as int) =~= v@.subrange(
                    i as int,
                    i + p@.len(),
                ));
                assert(v@.skip(i as int).skip(p@.len() as int) =~= v@.skip(i + p@.len()));
            }
            i = i + p.len();
        } else {
            proof {
                if p@.len() > 0 && p@.len() <= v@.skip(i as int).len() {
                    assert(v@.skip(i as int).subrange(0, p@.len() as int) =~= v@.subrange(
                        i as int,
                        i + p@.len(),
                    ));
                }
                assert(strip_prefix_rep(v@.skip(i as int), p@) == v@.skip(i as int));
            }
            let out = subvec(v, i, v.len());
            proof {
                assert(out@ =~= v@.skip(i as int));
            }
            return out;
        }
    }
}

// --- conversions between strings and character vectors ---

/// The characters of `s`, in order.
pub(crate) fn str_to_chars(s: &str) -> (r: Vec<char>)
    ensures
        r@ == s@,
{
    let mut out: Vec<char> = Vec::new();
    let n = s.unicode_len();
    let mut i: usize = 0;
    while i < n
        invariant
            i <= n,
            n == s@.len(),
            out@ =~= s@.subrange(0, i as int),
        decreases n - i,
    {
        out.push(s.get_char(i));
        i = i + 1;
        proof {
            assert(out@ =~= s@.subrange(0, i as int));
        }
    }
    proof {
        assert(out@ =~= s@);
    }
    out
}

/// Relies on `String: FromIterator<char>`: collecting characters builds the
/// string holding exactly those characters in order.
#[verifier::external_body]
pub(crate) fn chars_to_string(v: &Vec<char>) -> (r: String)
    ensures
        r@ == v@,
{
    v.iter().collect()
}


/// A count of zero means the character never occurs from `i` on.
pub proof fn lemma_count_zero(s: Seq<char>, c: char, i: int)
    requires
        0 <= i,
        count_char_from(s, c, i) == 0,
    ensures
        forall|j: int| i <= j < s.len() ==> s[j] != c,
    decreases s.len() - i,
{
    if i < s.len() {
        lemma_count_zero(s, c, i + 1);
    }
}

/// Replacing a pattern that never starts anywhere changes nothing.
pub proof fn lemma_replace_all_id(s: Seq<char>, pat: Seq<char>, sub: Seq<char>)
    requires
        pat.len() > 0,
        forall|j: int| 0 <= j < s.len() ==> s[j] != pat[0],
    ensures
        replace_all(s, pat, sub) == s,
{
    lemma_replace_all_from_id(s, pat, sub, 0);
}

proof fn lemma_replace_all_from_id(s: Seq<char>, pat: Seq<char>, sub: Seq<char>, i: int)
    requires
        0 <= i <= s.len(),
        pat.len() > 0,
        forall|j: int| 0 <= j < s.len() ==> s[j] != pat[0],
    ensures
        replace_all_from(s, pat, sub, i) == s.skip(i),
    decreases s.len() - i,
{
    if i + pat.len() <= s.len() && match_at(s, pat, i) {
        assert(s.subrange(i, i + pat.len())[0] == s[i]);
        assert(false);
    }
    if i < s.len() {
        lemma_replace_all_from_id(s, pat, sub, i + 1);
        assert(seq![s[i]] + s.skip(i + 1) =~= s.skip(i));
    } else {
        assert(s.skip(i) =~= Seq::<char>::empty());
    }
}

} // verus!
