//! Templates.
//!
//! A template owns its normalized text (escaped braces replaced by
//! sentinels), a positional counter advanced by `replace_positional`, and a
//! mapping from each placeholder name to its list of unresolved occurrences,
//! in order of discovery. Construction validates the text and fails fast;
//! the replace family substitutes values in place; `text` returns the
//! finished string once nothing is unresolved.

use vstd::prelude::*;
use vstd::string::StringExecFns;
use crate::chars::chars_to_string;
use crate::chars::count_char;
use crate::chars::count_char_from;
use crate::chars::count_char_exec;
use crate::chars::replace_all;
use crate::chars::replace_all_exec;
use crate::chars::replace_first;
use crate::chars::replace_first_exec;
use crate::chars::str_to_chars;
use crate::chars::subvec;
use crate::error::parse_err;
use crate::error::values_err;
use crate::error::Error;
use crate::error::SpecErr;
use crate::format_spec::braced_msg;
use crate::format_spec::spec_format;
use crate::numeric::dec_digits;
use crate::numeric::is_usize_text;
use crate::numeric::parse_usize;
use crate::numeric::usize_to_chars;
use crate::placeholder::spec_locate;
use crate::placeholder::Placeholder;
use crate::placeholder::SpecPh;
use crate::scan::discover;
use crate::scan::discover_exec;
use crate::scan::escape;
use crate::scan::escape_exec;
use crate::scan::lemma_discover_len;
use crate::scan::renumber;
use crate::scan::renumber_exec;
use crate::scan::unescape;
use crate::scan::unescape_exec;
use crate::scan::views_of;
use crate::value::Value;

verus! {

// --- views of the occurrence map ---

/// The views of a list of placeholders.
pub open spec fn phs_view(ps: Seq<Placeholder>) -> Seq<SpecPh> {
    Seq::new(ps.len(), |i: int| ps[i]@)
}

/// The views of the name-to-occurrences entries.
pub open spec fn entries_view(es: Seq<(String, Vec<Placeholder>)>) -> Seq<
    (Seq<char>, Seq<SpecPh>),
> {
    Seq::new(es.len(), |i: int| (es[i].0@, phs_view(es[i].1@)))
}

/// The mathematical content of a template.
pub ghost struct SpecTemplate {
    /// The normalized text, with sentinels for escaped braces.
    pub text: Seq<char>,
    /// The next position `replace_positional` fills.
    pub position: usize,
    /// Unresolved names and their occurrences, in discovery order.
    pub entries: Seq<(Seq<char>, Seq<SpecPh>)>,
}

// --- the association list ---

/// The occurrence list of `name`, if present.
pub open spec fn lookup(es: Seq<(Seq<char>, Seq<SpecPh>)>, name: Seq<char>) -> Option<Seq<SpecPh>>
    decreases es.len(),
{
    if es.len() == 0 {
        None
    } else if es[0].0 == name {
        Some(es[0].1)
    } else {
        lookup(es.drop_first(), name)
    }
}

/// The entries without the one for `name`.
pub open spec fn remove_key(es: Seq<(Seq<char>, Seq<SpecPh>)>, name: Seq<char>) -> Seq<
    (Seq<char>, Seq<SpecPh>),
>
    decreases es.len(),
{
    if es.len() == 0 {
        es
    } else if es[0].0 == name {
        es.drop_first()
    } else {
        seq![es[0]] + remove_key(es.drop_first(), name)
    }
}

/// One occurrence appended under `name`: to its existing list, or in a new
/// entry at the end.
pub open spec fn assoc_push(
    es: Seq<(Seq<char>, Seq<SpecPh>)>,
    name: Seq<char>,
    ph: SpecPh,
) -> Seq<(Seq<char>, Seq<SpecPh>)>
    decreases es.len(),
{
    if es.len() == 0 {
        seq![(name, seq![ph])]
    } else if es[0].0 == name {
        seq![(es[0].0, es[0].1.push(ph))] + es.drop_first()
    } else {
        seq![es[0]] + assoc_push(es.drop_first(), name, ph)
    }
}

/// Some entry carries `name`.
pub open spec fn has_key(es: Seq<(Seq<char>, Seq<SpecPh>)>, name: Seq<char>) -> bool {
    exists|i: int| 0 <= i < es.len() && es[i].0 == name
}

/// All entry names are distinct.
pub open spec fn entries_distinct(es: Seq<(Seq<char>, Seq<SpecPh>)>) -> bool {
    forall|i: int, j: int|
        0 <= i < j < es.len() ==> (#[trigger] es[i]).0 != (#[trigger] es[j]).0
}

/// No entry's occurrence list is empty.
pub open spec fn entries_nonempty(es: Seq<(Seq<char>, Seq<SpecPh>)>) -> bool {
    forall|i: int| 0 <= i < es.len() ==> (#[trigger] es[i]).1.len() >= 1
}

/// Every stored occurrence has a non-empty replacer substring.
pub open spec fn entries_replacers(es: Seq<(Seq<char>, Seq<SpecPh>)>) -> bool {
    forall|i: int, j: int|
        0 <= i < es.len() && 0 <= j < (#[trigger] es[i]).1.len() ==> (#[trigger] es[i].1[j]).replacer.len()
            >= 1
}

/// `assoc_push` keeps names distinct and lists non-empty, and adds exactly
/// the pushed name to the key set.
proof fn lemma_assoc_push_props(es: Seq<(Seq<char>, Seq<SpecPh>)>, name: Seq<char>, ph: SpecPh)
    requires
        entries_distinct(es),
        entries_nonempty(es),
        entries_replacers(es),
        ph.replacer.len() >= 1,
    ensures
        entries_distinct(assoc_push(es, name, ph)),
        entries_nonempty(assoc_push(es, name, ph)),
        entries_replacers(assoc_push(es, name, ph)),
        forall|k: Seq<char>|
            #[trigger] has_key(assoc_push(es, name, ph), k) <==> has_key(es, k) || k == name,
    decreases es.len(),
{
    let r = assoc_push(es, name, ph);
    if es.len() == 0 {
        assert(r[0].0 == name);
        assert(r[0].1 =~= seq![ph]);
        assert(entries_replacers(r)) by {
            assert(forall|j: int| 0 <= j < r[0].1.len() ==> r[0].1[j] == ph);
        }
        assert forall|k: Seq<char>| has_key(r, k) <==> has_key(es, k) || k == name by {
            if has_key(r, k) {
                let i = choose|i: int| 0 <= i < r.len() && r[i].0 == k;
                assert(i == 0);
            }
            if k == name {
                assert(r[0].0 == k);
            }
        }
    } else if es[0].0 == name {
        assert forall|i: int, j: int|
            0 <= i < j < r.len() implies (#[trigger] r[i]).0 != (#[trigger] r[j]).0 by {
            assert(r[i].0 == es[i].0);
            assert(r[j].0 == es[j].0);
        }
        assert forall|i: int| 0 <= i < r.len() implies (#[trigger] r[i]).1.len() >= 1 by {
            if i > 0 {
                assert(r[i].1 == es[i].1);
            }
        }
        assert forall|i: int, j: int|
            0 <= i < r.len() && 0 <= j < (#[trigger] r[i]).1.len() implies (#[trigger] r[i].1[j]).replacer.len()
                >= 1 by {
            if i == 0 {
                assert(r[0].1 == es[0].1.push(ph));
                if j < es[0].1.len() {
                    assert(r[0].1[j] == es[0].1[j]);
                } else {
                    assert(r[0].1[j] == ph);
                }
            } else {
                assert(r[i].1 == es[i].1);
            }
        }
        assert forall|k: Seq<char>| has_key(r, k) <==> has_key(es, k) || k == name by {
            if has_key(r, k) {
                let i = choose|i: int| 0 <= i < r.len() && r[i].0 == k;
                assert(es[i].0 == k);
            }
            if has_key(es, k) {
                let i = choose|i: int| 0 <= i < es.len() && es[i].0 == k;
                assert(r[i].0 == k);
            }
            if k == name {
                assert(r[0].0 == k);
            }
        }
    } else {
        let rest = es.drop_first();
        lemma_assoc_push_props(rest, name, ph);
        let rr = assoc_push(rest, name, ph);
        assert(r == seq![es[0]] + rr);
        assert forall|i: int, j: int|
            0 <= i < j < r.len() implies (#[trigger] r[i]).0 != (#[trigger] r[j]).0 by {
            if i == 0 {
                assert(r[0].0 == es[0].0);
                assert(r[j].0 == rr[j - 1].0);
                assert(has_key(rr, rr[j - 1].0));
                if has_key(rest, rr[j - 1].0) {
                    let m = choose|m: int| 0 <= m < rest.len() && rest[m].0 == rr[j - 1].0;
                    assert(es[m + 1].0 == rest[m].0);
                }
            } else {
                assert(r[i].0 == rr[i - 1].0);
                assert(r[j].0 == rr[j - 1].0);
            }
        }
        assert forall|i: int| 0 <= i < r.len() implies (#[trigger] r[i]).1.len() >= 1 by {
            if i > 0 {
                assert(r[i] == rr[i - 1]);
            } else {
                assert(r[0] == es[0]);
            }
        }
        assert forall|i: int, j: int|
            0 <= i < r.len() && 0 <= j < (#[trigger] r[i]).1.len() implies (#[trigger] r[i].1[j]).replacer.len()
                >= 1 by {
            if i > 0 {
                assert(r[i] == rr[i - 1]);
            } else {
                assert(r[0] == es[0]);
            }
        }
        assert forall|k: Seq<char>| has_key(r, k) <==> has_key(es, k) || k == name by {
            if has_key(r, k) {
                let i = choose|i: int| 0 <= i < r.len() && r[i].0 == k;
                if i == 0 {
                    assert(es[0].0 == k);
                } else {
                    assert(rr[i - 1].0 == k);
                    assert(has_key(rr, k));
                    if has_key(rest, k) {
                        let m = choose|m: int| 0 <= m < rest.len() && rest[m].0 == k;
                        assert(es[m + 1].0 == k);
                    }
                }
            }
            if has_key(es, k) {
                let i = choose|i: int| 0 <= i < es.len() && es[i].0 == k;
                if i == 0 {
                    assert(r[0].0 == k);
                } else {
                    assert(rest[i - 1].0 == k);
                    assert(has_key(rest, k));
                    assert(has_key(assoc_push(rest, name, ph), k));
                    let m = choose|m: int| 0 <= m < rr.len() && rr[m].0 == k;
                    assert(r[m + 1].0 == k);
                }
            }
            if k == name {
                assert(has_key(assoc_push(rest, name, ph), k));
                let m = choose|m: int| 0 <= m < rr.len() && rr[m].0 == k;
                assert(r[m + 1].0 == k);
            }
        }
    }
}

/// Where the first match for `name` sits at index `i`, `assoc_push` appends
/// to that entry's list.
proof fn lemma_assoc_push_at(
    es: Seq<(Seq<char>, Seq<SpecPh>)>,
    name: Seq<char>,
    ph: SpecPh,
    i: int,
)
    requires
        0 <= i < es.len(),
        es[i].0 == name,
        forall|j: int| 0 <= j < i ==> es[j].0 != name,
    ensures
        assoc_push(es, name, ph) == es.update(i, (es[i].0, es[i].1.push(ph))),
    decreases i,
{
    if i == 0 {
        assert(assoc_push(es, name, ph) =~= es.update(0, (es[0].0, es[0].1.push(ph))));
    } else {
        let rest = es.drop_first();
        assert(rest[i - 1].0 == name);
        lemma_assoc_push_at(rest, name, ph, i - 1);
        assert(assoc_push(es, name, ph) =~= es.update(i, (es[i].0, es[i].1.push(ph))));
    }
}

/// Where no entry matches `name`, `assoc_push` appends a new entry.
proof fn lemma_assoc_push_absent(es: Seq<(Seq<char>, Seq<SpecPh>)>, name: Seq<char>, ph: SpecPh)
    requires
        forall|j: int| 0 <= j < es.len() ==> (#[trigger] es[j]).0 != name,
    ensures
        assoc_push(es, name, ph) == es.push((name, seq![ph])),
    decreases es.len(),
{
    if es.len() == 0 {
        assert(assoc_push(es, name, ph) =~= es.push((name, seq![ph])));
    } else {
        lemma_assoc_push_absent(es.drop_first(), name, ph);
        assert(assoc_push(es, name, ph) =~= es.push((name, seq![ph])));
    }
}

/// Where the first match for `name` sits at index `i`, `remove_key` removes
/// exactly that entry.
proof fn lemma_remove_key_at(es: Seq<(Seq<char>, Seq<SpecPh>)>, name: Seq<char>, i: int)
    requires
        0 <= i < es.len(),
        es[i].0 == name,
        forall|j: int| 0 <= j < i ==> es[j].0 != name,
    ensures
        remove_key(es, name) == es.remove(i),
    decreases i,
{
    if i == 0 {
        assert(remove_key(es, name) =~= es.remove(0));
    } else {
        let rest = es.drop_first();
        assert(rest[i - 1].0 == name);
        lemma_remove_key_at(rest, name, i - 1);
        assert(remove_key(es, name) =~= es.remove(i));
    }
}

/// Where no entry matches `name`, `lookup` finds nothing.
proof fn lemma_lookup_absent(es: Seq<(Seq<char>, Seq<SpecPh>)>, name: Seq<char>)
    requires
        forall|j: int| 0 <= j < es.len() ==> (#[trigger] es[j]).0 != name,
    ensures
        lookup(es, name) is None,
    decreases es.len(),
{
    if es.len() > 0 {
        lemma_lookup_absent(es.drop_first(), name);
    }
}

/// Where the first match for `name` sits at index `i`, `lookup` finds that
/// entry's list.
proof fn lemma_lookup_at(es: Seq<(Seq<char>, Seq<SpecPh>)>, name: Seq<char>, i: int)
    requires
        0 <= i < es.len(),
        es[i].0 == name,
        forall|j: int| 0 <= j < i ==> es[j].0 != name,
    ensures
        lookup(es, name) == Some(es[i].1),
    decreases i,
{
    if i > 0 {
        let rest = es.drop_first();
        assert(rest[i - 1].0 == name);
        lemma_lookup_at(rest, name, i - 1);
    }
}

// --- building the occurrence map ---

/// Building the occurrence map from the discovered names: each name's next
/// occurrence is located in a shrinking working copy, appended under its
/// name, and its bracketed substring removed once. A name that cannot be
/// located is a structural error.
pub open spec fn spec_build(
    names: Seq<Seq<char>>,
    query: Seq<char>,
    acc: Seq<(Seq<char>, Seq<SpecPh>)>,
) -> Result<Seq<(Seq<char>, Seq<SpecPh>)>, SpecErr>
    decreases names.len(),
{
    if names.len() == 0 {
        Ok(acc)
    } else {
        match spec_locate(query, names[0]) {
            Err(e) => Err(e),
            Ok(None) => Err(parse_err(braced_msg("unable to locate placeholder "@, names[0]))),
            Ok(Some(ph)) => spec_build(
                names.drop_first(),
                replace_first(query, ph.replacer, Seq::empty()),
                assoc_push(acc, names[0], ph),
            ),
        }
    }
}

/// The balance-check message carrying both brace counts.
pub open spec fn balance_msg(o: nat, c: nat) -> Seq<char> {
    "number of opening and closing curly braces are not equal i.e. "@ + dec_digits(o)
        + " != "@ + dec_digits(c)
}

/// Construction of a template from raw text: braces are escaped, the brace
/// counts must balance, anonymous markers are numbered, and every discovered
/// name's occurrences are parsed and recorded.
pub open spec fn spec_new(input: Seq<char>) -> Result<SpecTemplate, SpecErr> {
    let e = escape(input);
    let o = count_char(e, '{');
    let c = count_char(e, '}');
    if o != c {
        Err(parse_err(balance_msg(o, c)))
    } else {
        let numbered = renumber(e, 0, discover(e));
        match spec_build(discover(numbered), numbered, Seq::empty()) {
            Err(er) => Err(er),
            Ok(entries) => Ok(SpecTemplate { text: numbered, position: 0, entries }),
        }
    }
}

// --- the template ---

/// String template with a formatting mini-language in its placeholders.
#[derive(Debug, Clone)]
pub struct Template {
    template: Vec<char>,
    position: usize,
    placeholders: Vec<(String, Vec<Placeholder>)>,
}

impl View for Template {
    type V = SpecTemplate;

    closed spec fn view(&self) -> SpecTemplate {
        SpecTemplate {
            text: self.template@,
            position: self.position,
            entries: entries_view(self.placeholders@),
        }
    }
}

impl Template {
    /// The stored entries themselves, for contracts that speak of the
    /// placeholder values handed to callbacks.
    pub closed spec fn raw_entries(&self) -> Seq<(String, Vec<Placeholder>)> {
        self.placeholders@
    }

    /// Well-formedness: names are distinct and no occurrence list is empty.
    pub open spec fn wf(&self) -> bool {
        entries_distinct(self@.entries) && entries_nonempty(self@.entries) && entries_replacers(
            self@.entries,
        )
    }

    /// Create a new template from raw text, as `spec_new` describes it, with
    /// a well-formed occurrence map.
    #[verifier::rlimit(60)]
    pub fn new(template: &str) -> (r: Result<Template, Error>)
        ensures
            match r {
                Ok(t) => spec_new(template@) == Ok::<SpecTemplate, SpecErr>(t@) && t.wf(),
                Err(e) => spec_new(template@) == Err::<SpecTemplate, SpecErr>(e@),
            },
    {
        let raw = str_to_chars(template);
        let esc = escape_exec(&raw);
        let o = count_char_exec(&esc, '{');
        let c = count_char_exec(&esc, '}');
        if o != c {
            let mut m = String::from_str(
                "number of opening and closing curly braces are not equal i.e. ",
            );
            let ov = usize_to_chars(o);
            let cv = usize_to_chars(c);
            m.append(chars_to_string(&ov).as_str());
            m.append(" != ");
            m.append(chars_to_string(&cv).as_str());
            proof {
                assert(m@ =~= balance_msg(o as nat, c as nat));
            }
            return Err(Error::new_parse(m));
        }
        let claimed = discover_exec(&esc);
        proof {
            lemma_discover_len(esc@);
        }
        let numbered = renumber_exec(&esc, &claimed);
        let names = discover_exec(&numbered);
        let ghost all_names = views_of(names@);
        let ghost numv = numbered@;
        let mut entries: Vec<(String, Vec<Placeholder>)> = Vec::new();
        let mut query = subvec(&numbered, 0, numbered.len());
        proof {
            assert(query@ =~= numbered@);
            assert(all_names.skip(0) =~= all_names);
            assert(entries_view(entries@) =~= Seq::<(Seq<char>, Seq<SpecPh>)>::empty());
            assert(entries_replacers(entries_view(entries@)));
            assert(spec_new(template@) == (match spec_build(
                all_names,
                numv,
                Seq::<(Seq<char>, Seq<SpecPh>)>::empty(),
            ) {
                Err(er) => Err::<SpecTemplate, SpecErr>(er),
                Ok(en) => Ok::<SpecTemplate, SpecErr>(
                    SpecTemplate { text: numv, position: 0, entries: en },
                ),
            }));
        }
        let mut k: usize = 0;
        loop
            invariant
                k <= names@.len(),
                all_names == views_of(names@),
                spec_new(template@) == (match spec_build(
                    all_names,
                    numv,
                    Seq::<(Seq<char>, Seq<SpecPh>)>::empty(),
                ) {
                    Err(er) => Err::<SpecTemplate, SpecErr>(er),
                    Ok(en) => Ok::<SpecTemplate, SpecErr>(
                        SpecTemplate { text: numv, position: 0, entries: en },
                    ),
                }),
                numv == numbered@,
                spec_build(all_names, numv, Seq::<(Seq<char>, Seq<SpecPh>)>::empty())
                    == spec_build(all_names.skip(k as int), query@, entries_view(entries@)),
                entries_distinct(entries_view(entries@)),
                entries_nonempty(entries_view(entries@)),
                entries_replacers(entries_view(entries@)),
            decreases names@.len() - k,
        {
            if k == names.len() {
                let t = Template { template: numbered, position: 0, placeholders: entries };
                proof {
                    assert(all_names.skip(k as int).len() == 0);
                    assert(spec_build(all_names.skip(k as int), query@, entries_view(entries@))
                        == Ok::<Seq<(Seq<char>, Seq<SpecPh>)>, SpecErr>(entries_view(entries@)));
                    assert(t@.text == numv);
                }
                return Ok(t);
            }
            let name = &names[k];
            proof {
                assert(all_names.skip(k as int)[0] == name@);
            }
            match Placeholder::locate(&query, name) {
                Err(e) => {
                    return Err(e);
                },
                Ok(None) => {
                    let m = crate::format_spec::msg_braced(
                        "unable to locate placeholder ",
                        name,
                    );
                    return Err(Error::new_parse(m));
                },
                Ok(Some(ph)) => {
                    let ghost phv = ph@;
                    let ghost old_query = query@;
                    let rep = str_to_chars(ph.replacer.as_str());
                    proof {
                        assert(phv.replacer.len() >= 2);
                    }
                    let empty_sub: Vec<char> = Vec::new();
                    let new_query = replace_first_exec(&query, &rep, &empty_sub);
                    let ghost prev_entries = entries_view(entries@);
                    entries_push(&mut entries, name, ph);
                    query = new_query;
                    k = k + 1;
                    proof {
                        assert(empty_sub@ =~= Seq::<char>::empty());
                        lemma_assoc_push_props(prev_entries, all_names[k - 1], phv);
                        assert(all_names.skip(k - 1).drop_first() =~= all_names.skip(k as int));
                        assert(spec_build(all_names.skip(k - 1), old_query, prev_entries)
                            == spec_build(
                            all_names.skip(k as int),
                            replace_first(old_query, phv.replacer, Seq::<char>::empty()),
                            assoc_push(prev_entries, all_names[k - 1], phv),
                        ));
                        assert(query@ == replace_first(old_query, phv.replacer, Seq::<
                            char,
                        >::empty()));
                    }
                },
            }
        }
    }
}

/// Append one occurrence under its name: to the existing entry, or as a new
/// one at the end.
fn entries_push(entries: &mut Vec<(String, Vec<Placeholder>)>, name: &Vec<char>, ph: Placeholder)
    ensures
        entries_view(final(entries)@) == assoc_push(entries_view(old(entries)@), name@, ph@),
{
    let n = entries.len();
    let mut i: usize = 0;
    while i < n
        invariant
            i <= n,
            n == entries@.len(),
            entries@ == old(entries)@,
            forall|j: int| 0 <= j < i ==> entries_view(entries@)[j].0 != name@,
        decreases n - i,
    {
        let key_chars = str_to_chars(entries[i].0.as_str());
        if eq_chars_pub(&key_chars, name) {
            proof {
                assert(entries_view(entries@)[i as int].0 == name@);
            }
            let (key, mut list) = entries.remove(i);
            list.push(ph);
            entries.insert(i, (key, list));
            proof {
                let old_view = entries_view(old(entries)@);
                lemma_assoc_push_at(old_view, name@, ph@, i as int);
                assert(phs_view(list@) =~= old_view[i as int].1.push(ph@));
                assert(entries_view(entries@) =~= old_view.update(
                    i as int,
                    (old_view[i as int].0, old_view[i as int].1.push(ph@)),
                ));
            }
            return ;
        }
        i = i + 1;
    }
    let key = chars_to_string(name);
    let mut list: Vec<Placeholder> = Vec::new();
    list.push(ph);
    entries.push((key, list));
    proof {
        let old_view = entries_view(old(entries)@);
        lemma_assoc_push_absent(old_view, name@, ph@);
        assert(phs_view(list@) =~= seq![ph@]);
        assert(entries_view(entries@) =~= old_view.push((name@, seq![ph@])));
    }
}

/// Character-vector equality, shared with the scanner.
fn eq_chars_pub(a: &Vec<char>, b: &Vec<char>) -> (r: bool)
    ensures
        r == (a@ == b@),
{
    if a.len() != b.len() {
        return false;
    }
    let mut i: usize = 0;
    while i < a.len()
        invariant
            i <= a@.len(),
            a@.len() == b@.len(),
            forall|k: int| 0 <= k < i ==> a@[k] == b@[k],
        decreases a@.len() - i,
    {
        if a[i] != b[i] {
            return false;
        }
        i = i + 1;
    }
    proof {
        assert(a@ =~= b@);
    }
    true
}

// --- reading back ---

/// The keys of the entries, in order.
pub open spec fn keys_of(es: Seq<(Seq<char>, Seq<SpecPh>)>) -> Seq<Seq<char>> {
    Seq::new(es.len(), |i: int| es[i].0)
}

/// The tag a missing name is reported with: positional when it parses as an
/// index, named otherwise.
pub open spec fn tag_of(key: Seq<char>) -> Seq<char> {
    if is_usize_text(key) {
        " (positional)"@
    } else {
        " (named)"@
    }
}

/// The listing of missing names, each tagged, separated by commas.
pub open spec fn missing_list(keys: Seq<Seq<char>>) -> Seq<char>
    decreases keys.len(),
{
    if keys.len() == 0 {
        Seq::empty()
    } else {
        keys[0] + tag_of(keys[0]) + (if keys.len() > 1 {
            ", "@
        } else {
            Seq::<char>::empty()
        }) + missing_list(keys.drop_first())
    }
}

/// The whole missing-values message.
pub open spec fn missing_msg(keys: Seq<Seq<char>>) -> Seq<char> {
    "missing placeholders values for: "@ + missing_list(keys)
}

impl Template {
    /// Checks whether the template still holds an unresolved occurrence of
    /// this placeholder name.
    pub fn contains(&self, placeholder: &str) -> (r: bool)
        ensures
            r == (lookup(self@.entries, placeholder@) is Some),
    {
        let pv = str_to_chars(placeholder);
        let n = self.placeholders.len();
        let mut i: usize = 0;
        while i < n
            invariant
                i <= n,
                n == self.raw_entries().len(),
                pv@ == placeholder@,
                forall|j: int| 0 <= j < i ==> entries_view(self.raw_entries())[j].0 != placeholder@,
            decreases n - i,
        {
            let key_chars = str_to_chars(self.placeholders[i].0.as_str());
            if eq_chars_pub(&key_chars, &pv) {
                proof {
                    lemma_lookup_at(self@.entries, placeholder@, i as int);
                }
                return true;
            }
            i = i + 1;
        }
        proof {
            lemma_lookup_absent(self@.entries, placeholder@);
        }
        false
    }

    /// Returns the current text with escape sentinels turned back into
    /// braces, whether or not every placeholder is resolved.
    pub fn unchecked_text(&self) -> (r: String)
        ensures
            r@ == unescape(self@.text),
    {
        let u = unescape_exec(&self.template);
        chars_to_string(&u)
    }

    /// Returns the finished text, or a missing-values error naming every
    /// unresolved name exactly once, tagged positional or named.
    pub fn text(&self) -> (r: Result<String, Error>)
        ensures
            match r {
                Ok(s) => self@.entries.len() == 0 && s@ == unescape(self@.text),
                Err(e) => self@.entries.len() > 0 && e@ == values_err(
                    missing_msg(keys_of(self@.entries)),
                ),
            },
    {
        if self.placeholders.len() == 0 {
            proof {
                assert(self@.entries.len() == 0);
            }
            return Ok(self.unchecked_text());
        }
        let mut m = String::from_str("missing placeholders values for: ");
        let ghost keys = keys_of(self@.entries);
        let n = self.placeholders.len();
        let mut i: usize = 0;
        proof {
            assert(keys.skip(0) =~= keys);
        }
        while i < n
            invariant
                i <= n,
                n == self.raw_entries().len(),
                keys == keys_of(self@.entries),
                "missing placeholders values for: "@ + missing_list(keys) == m@ + missing_list(
                    keys.skip(i as int),
                ),
            decreases n - i,
        {
            let key = &self.placeholders[i].0;
            let kv = str_to_chars(key.as_str());
            let ghost prev = m@;
            m.append(key.as_str());
            let positional = parse_usize(&kv).is_some();
            if positional {
                m.append(" (positional)");
            } else {
                m.append(" (named)");
            }
            if i + 1 < n {
                m.append(", ");
            }
            i = i + 1;
            proof {
                let rest = keys.skip(i - 1);
                assert(rest[0] == keys[i - 1]);
                assert(keys[i - 1] == kv@);
                assert(rest.drop_first() =~= keys.skip(i as int));
                assert(missing_list(rest) == rest[0] + tag_of(rest[0]) + (if rest.len() > 1 {
                    ", "@
                } else {
                    Seq::<char>::empty()
                }) + missing_list(keys.skip(i as int)));
                if i < n {
                    assert(m@ =~= prev + (kv@ + tag_of(kv@) + ", "@));
                    assert(prev + missing_list(rest) =~= m@ + missing_list(keys.skip(i as int)));
                } else {
                    assert(m@ =~= prev + (kv@ + tag_of(kv@)));
                    assert(prev + missing_list(rest) =~= m@ + missing_list(keys.skip(i as int)));
                }
            }
        }
        proof {
            assert(keys.skip(n as int).len() == 0);
            assert(missing_list(keys.skip(n as int)) =~= Seq::<char>::empty());
            assert(m@ =~= missing_msg(keys));
        }
        Err(Error::new_values(m))
    }
}


impl Template {
    /// Index of the entry for `name`, if one exists.
    fn find_entry(&self, name: &Vec<char>) -> (r: Option<usize>)
        ensures
            match r {
                Some(i) => i < self.raw_entries().len() && entries_view(self.raw_entries())[i as int].0 == name@ && forall|j: int|
                    0 <= j < i ==> entries_view(self.raw_entries())[j].0 != name@,
                None => forall|j: int|
                    0 <= j < self.raw_entries().len() ==> entries_view(self.raw_entries())[j].0
                        != name@,
            },
    {
        let n = self.placeholders.len();
        let mut idx: usize = 0;
        while idx < n
            invariant
                idx <= n,
                n == self.raw_entries().len(),
                forall|j: int| 0 <= j < idx ==> entries_view(self.raw_entries())[j].0 != name@,
            decreases n - idx,
        {
            let key_chars = str_to_chars(self.placeholders[idx].0.as_str());
            if eq_chars_pub(&key_chars, name) {
                proof {
                    assert(entries_view(self.raw_entries())[idx as int].0 == name@);
                }
                return Some(idx);
            }
            idx = idx + 1;
        }
        None
    }
}

// --- substitution ---

/// The formatted outputs one value yields for a list of occurrences, each
/// rendered under its own format specification.
pub open spec fn format_outs(phs: Seq<SpecPh>, v: Value) -> Seq<Seq<char>> {
    Seq::new(phs.len(), |i: int| spec_format(phs[i].format_spec, v))
}

/// The views of a sequence of strings.
pub open spec fn seq_views(ss: Seq<String>) -> Seq<Seq<char>> {
    Seq::new(ss.len(), |i: int| ss[i]@)
}

/// The text after substituting, occurrence by occurrence, every copy of
/// each occurrence's replacer with its output.
pub open spec fn apply_outs(text: Seq<char>, phs: Seq<SpecPh>, outs: Seq<Seq<char>>) -> Seq<char>
    decreases phs.len(),
{
    if phs.len() == 0 {
        text
    } else {
        apply_outs(replace_all(text, phs[0].replacer, outs[0]), phs.drop_first(), outs.drop_first())
    }
}

/// The stored occurrence list of `name`, if present, as the stored values.
pub open spec fn lookup_raw(es: Seq<(String, Vec<Placeholder>)>, name: Seq<char>) -> Option<
    Vec<Placeholder>,
>
    decreases es.len(),
{
    if es.len() == 0 {
        None
    } else if es[0].0@ == name {
        Some(es[0].1)
    } else {
        lookup_raw(es.drop_first(), name)
    }
}

/// Where the first match for `name` sits at index `i`, `lookup_raw` finds
/// that entry's list.
proof fn lemma_lookup_raw_at(es: Seq<(String, Vec<Placeholder>)>, name: Seq<char>, i: int)
    requires
        0 <= i < es.len(),
        es[i].0@ == name,
        forall|j: int| 0 <= j < i ==> (#[trigger] es[j]).0@ != name,
    ensures
        lookup_raw(es, name) == Some(es[i].1),
    decreases i,
{
    if i > 0 {
        let rest = es.drop_first();
        assert(rest[i - 1].0@ == name);
        lemma_lookup_raw_at(rest, name, i - 1);
    }
}

/// Where no entry matches `name`, `lookup_raw` finds nothing.
proof fn lemma_lookup_raw_absent(es: Seq<(String, Vec<Placeholder>)>, name: Seq<char>)
    requires
        forall|j: int| 0 <= j < es.len() ==> (#[trigger] es[j]).0@ != name,
    ensures
        lookup_raw(es, name) is None,
    decreases es.len(),
{
    if es.len() > 0 {
        lemma_lookup_raw_absent(es.drop_first(), name);
    }
}

/// Resolving a name removes it from the map for good: looking it up after
/// `remove_key` finds nothing when names are distinct. This is what makes a
/// second replace call on an already resolved name a no-op.
pub proof fn lemma_lookup_after_remove(es: Seq<(Seq<char>, Seq<SpecPh>)>, name: Seq<char>)
    requires
        entries_distinct(es),
    ensures
        lookup(remove_key(es, name), name) is None,
    decreases es.len(),
{
    if es.len() > 0 {
        if es[0].0 == name {
            assert forall|j: int|
                0 <= j < es.drop_first().len() implies (#[trigger] es.drop_first()[j]).0
                != name by {
                assert(es.drop_first()[j] == es[j + 1]);
            }
            lemma_lookup_absent(es.drop_first(), name);
        } else {
            lemma_lookup_after_remove(es.drop_first(), name);
            let r = remove_key(es, name);
            assert(r[0] == es[0]);
            assert(r.drop_first() =~= remove_key(es.drop_first(), name));
        }
    }
}

impl Template {
    /// Replace every remaining occurrence of one name, formatting `value`
    /// per occurrence and substituting its exact replacer substring; the
    /// name's entry is then dropped. An unknown name changes nothing.
    fn replace_core(&mut self, name: &Vec<char>, value: &Value)
        requires
            old(self).wf(),
        ensures
            final(self).wf(),
            final(self)@.position == old(self)@.position,
            match lookup(old(self)@.entries, name@) {
                None => *final(self) == *old(self),
                Some(phs) => final(self)@.text == apply_outs(
                    old(self)@.text,
                    phs,
                    format_outs(phs, *value),
                ) && final(self)@.entries == remove_key(old(self)@.entries, name@),
            },
    {
        let idx = match self.find_entry(name) {
            None => {
                proof {
                    lemma_lookup_absent(self@.entries, name@);
                }
                return ;
            },
            Some(i) => i,
        };
        proof {
            lemma_lookup_at(self@.entries, name@, idx as int);
        }
        let ghost phs = self@.entries[idx as int].1;
        let ghost old_text = self@.text;
        let m = self.placeholders[idx].1.len();
        proof {
            assert(phs =~= phs_view(self.raw_entries()[idx as int].1@));
            assert(phs.len() == m);
            assert(phs.skip(0) =~= phs);
            assert(format_outs(phs, *value).skip(0) =~= format_outs(phs, *value));
        }
        let mut j: usize = 0;
        while j < m
            invariant
                j <= m,
                idx < self.raw_entries().len(),
                m == self.raw_entries()[idx as int].1@.len(),
                self.raw_entries() == old(self).raw_entries(),
                self@.position == old(self)@.position,
                phs == phs_view(self.raw_entries()[idx as int].1@),
                entries_replacers(self@.entries),
                apply_outs(old_text, phs, format_outs(phs, *value)) == apply_outs(
                    self@.text,
                    phs.skip(j as int),
                    format_outs(phs, *value).skip(j as int),
                ),
            decreases m - j,
        {
            let fmt = self.placeholders[idx].1[j].format_spec.format(value);
            let fv = str_to_chars(fmt.as_str());
            let rep = str_to_chars(self.placeholders[idx].1[j].replacer.as_str());
            proof {
                assert(self@.entries[idx as int].1[j as int].replacer.len() >= 1);
                assert(phs[j as int] == self.raw_entries()[idx as int].1@[j as int]@);
            }
            let newt = replace_all_exec(&self.template, &rep, &fv);
            self.template = newt;
            j = j + 1;
            proof {
                let rest = phs.skip(j - 1);
                let outs = format_outs(phs, *value);
                assert(rest[0] == phs[j - 1]);
                assert(outs.skip(j - 1)[0] == outs[j - 1]);
                assert(rest.drop_first() =~= phs.skip(j as int));
                assert(outs.skip(j - 1).drop_first() =~= outs.skip(j as int));
                assert(fv@ == outs[j - 1]);
            }
        }
        proof {
            assert(phs.skip(m as int).len() == 0);
            assert(apply_outs(old_text, phs, format_outs(phs, *value)) == self@.text);
        }
        let ghost pre_remove = self@.entries;
        let _ = self.placeholders.remove(idx);
        proof {
            lemma_remove_key_at(pre_remove, name@, idx as int);
            assert(entries_view(self.raw_entries()) =~= pre_remove.remove(idx as int));
            assert forall|i2: int, j2: int|
                0 <= i2 < j2 < self@.entries.len() implies (#[trigger] self@.entries[i2]).0 != (
            #[trigger] self@.entries[j2]).0 by {
                if j2 < idx {
                    assert(self@.entries[i2] == pre_remove[i2]);
                    assert(self@.entries[j2] == pre_remove[j2]);
                } else if i2 < idx {
                    assert(self@.entries[i2] == pre_remove[i2]);
                    assert(self@.entries[j2] == pre_remove[j2 + 1]);
                } else {
                    assert(self@.entries[i2] == pre_remove[i2 + 1]);
                    assert(self@.entries[j2] == pre_remove[j2 + 1]);
                }
            }
            assert forall|i2: int| 0 <= i2 < self@.entries.len() implies (#[trigger] self@.entries[i2]).1.len()
                >= 1 by {
                if i2 < idx {
                    assert(self@.entries[i2] == pre_remove[i2]);
                } else {
                    assert(self@.entries[i2] == pre_remove[i2 + 1]);
                }
            }
            assert forall|i2: int, j2: int|
                0 <= i2 < self@.entries.len() && 0 <= j2 < (#[trigger] self@.entries[i2]).1.len() implies (
            #[trigger] self@.entries[i2].1[j2]).replacer.len() >= 1 by {
                if i2 < idx {
                    assert(self@.entries[i2] == pre_remove[i2]);
                } else {
                    assert(self@.entries[i2] == pre_remove[i2 + 1]);
                }
            }
        }
    }

    /// Replace a template placeholder with a value. This change is in
    /// place; every remaining occurrence of the name is substituted and the
    /// name becomes resolved. An unknown name is a harmless no-op.
    pub fn replace(&mut self, placeholder: &str, value: &Value)
        requires
            old(self).wf(),
        ensures
            final(self).wf(),
            final(self)@.position == old(self)@.position,
            match lookup(old(self)@.entries, placeholder@) {
                None => *final(self) == *old(self),
                Some(phs) => final(self)@.text == apply_outs(
                    old(self)@.text,
                    phs,
                    format_outs(phs, *value),
                ) && final(self)@.entries == remove_key(old(self)@.entries, placeholder@),
            },
    {
        let nv = str_to_chars(placeholder);
        self.replace_core(&nv, value);
    }

    /// Replace the next positional placeholder with a value and advance the
    /// positional counter. This change is in place.
    pub fn replace_positional(&mut self, value: &Value)
        requires
            old(self).wf(),
            old(self)@.position < usize::MAX,
        ensures
            final(self).wf(),
            final(self)@.position == old(self)@.position + 1,
            match lookup(old(self)@.entries, dec_digits(old(self)@.position as nat)) {
                None => final(self)@.text == old(self)@.text && final(self)@.entries == old(
                    self,
                )@.entries,
                Some(phs) => final(self)@.text == apply_outs(
                    old(self)@.text,
                    phs,
                    format_outs(phs, *value),
                ) && final(self)@.entries == remove_key(
                    old(self)@.entries,
                    dec_digits(old(self)@.position as nat),
                ),
            },
    {
        let nv = usize_to_chars(self.position);
        self.replace_core(&nv, value);
        self.position = self.position + 1;
    }
}


/// Appending one substitution step to the fold: substituting through an
/// extended occurrence list is substituting through the shorter one, then
/// once more.
proof fn lemma_apply_outs_snoc(
    text: Seq<char>,
    phs: Seq<SpecPh>,
    outs: Seq<Seq<char>>,
    p: SpecPh,
    o: Seq<char>,
)
    requires
        phs.len() == outs.len(),
    ensures
        apply_outs(text, phs.push(p), outs.push(o)) == replace_all(
            apply_outs(text, phs, outs),
            p.replacer,
            o,
        ),
    decreases phs.len(),
{
    if phs.len() == 0 {
        assert(phs.push(p)[0] == p);
        assert(outs.push(o)[0] == o);
        assert(phs.push(p).drop_first() =~= Seq::<SpecPh>::empty());
        assert(outs.push(o).drop_first() =~= Seq::<Seq<char>>::empty());
        assert(apply_outs(
            replace_all(text, p.replacer, o),
            Seq::<SpecPh>::empty(),
            Seq::<Seq<char>>::empty(),
        ) == replace_all(text, p.replacer, o));
        assert(apply_outs(text, phs, outs) == text);
    } else {
        assert(phs.push(p)[0] == phs[0]);
        assert(outs.push(o)[0] == outs[0]);
        assert(phs.push(p).drop_first() =~= phs.drop_first().push(p));
        assert(outs.push(o).drop_first() =~= outs.drop_first().push(o));
        lemma_apply_outs_snoc(
            replace_all(text, phs[0].replacer, outs[0]),
            phs.drop_first(),
            outs.drop_first(),
            p,
            o,
        );
    }
}

impl Template {
    /// Replace a template placeholder with a value, passing each formatted
    /// occurrence and its placeholder through `callback` before
    /// substitution. This change is in place.
    pub fn replace_with_callback<F: Fn(String, &Placeholder) -> String>(
        &mut self,
        placeholder: &str,
        value: &Value,
        callback: F,
    )
        requires
            old(self).wf(),
            forall|s: String, p: &Placeholder| #[trigger] call_requires(callback, (s, p)),
        ensures
            final(self).wf(),
            final(self)@.position == old(self)@.position,
            lookup(old(self)@.entries, placeholder@) is None ==> *final(self) == *old(self),
            match lookup_raw(old(self).raw_entries(), placeholder@) {
                None => *final(self) == *old(self),
                Some(raw) => final(self)@.entries == remove_key(
                    old(self)@.entries,
                    placeholder@,
                ) && exists|sins: Seq<String>, souts: Seq<String>|
                    #![trigger sins.len(), souts.len()]
                    sins.len() == raw@.len() && souts.len() == raw@.len() && final(self)@.text
                        == apply_outs(old(self)@.text, phs_view(raw@), seq_views(souts)) && (
                    forall|j: int|
                        0 <= j < raw@.len() ==> (#[trigger] sins[j])@ == spec_format(
                            raw@[j]@.format_spec,
                            *value,
                        )) && (forall|j: int|
                        0 <= j < raw@.len() ==> call_ensures(
                            callback,
                            (#[trigger] sins[j], &raw@[j]),
                            souts[j],
                        )),
            },
    {
        let nv = str_to_chars(placeholder);
        let idx = match self.find_entry(&nv) {
            None => {
                proof {
                    assert forall|j: int|
                        0 <= j < self.raw_entries().len() implies (#[trigger] self.raw_entries()[j]).0@
                        != placeholder@ by {
                        assert(entries_view(self.raw_entries())[j].0 == self.raw_entries()[j].0@);
                    }
                    lemma_lookup_absent(self@.entries, placeholder@);
                    lemma_lookup_raw_absent(self.raw_entries(), placeholder@);
                }
                return ;
            },
            Some(i) => i,
        };
        proof {
            lemma_lookup_at(self@.entries, placeholder@, idx as int);
            assert(self.raw_entries()[idx as int].0@ == placeholder@);
            assert forall|j: int|
                0 <= j < idx implies (#[trigger] self.raw_entries()[j]).0@ != placeholder@ by {
                assert(entries_view(self.raw_entries())[j].0 == self.raw_entries()[j].0@);
            }
            lemma_lookup_raw_at(self.raw_entries(), placeholder@, idx as int);
        }
        let ghost raw = self.raw_entries()[idx as int].1;
        let ghost phs = phs_view(raw@);
        let ghost old_text = self@.text;
        let ghost mut sins: Seq<String> = Seq::empty();
        let ghost mut souts: Seq<String> = Seq::empty();
        let m = self.placeholders[idx].1.len();
        proof {
            assert(phs =~= self@.entries[idx as int].1);
            assert(phs.take(0) =~= Seq::<SpecPh>::empty());
            assert(seq_views(souts) =~= Seq::<Seq<char>>::empty());
        }
        let mut j: usize = 0;
        while j < m
            invariant
                j <= m,
                idx < self.raw_entries().len(),
                m == raw@.len(),
                self.raw_entries() == old(self).raw_entries(),
                raw == self.raw_entries()[idx as int].1,
                self@.position == old(self)@.position,
                phs == phs_view(raw@),
                entries_replacers(self@.entries),
                phs =~= self@.entries[idx as int].1,
                sins.len() == j,
                souts.len() == j,
                self@.text == apply_outs(old_text, phs.take(j as int), seq_views(souts)),
                forall|s: String, p: &Placeholder| #[trigger] call_requires(callback, (s, p)),
                forall|jj: int|
                    0 <= jj < j ==> (#[trigger] sins[jj])@ == spec_format(
                        raw@[jj]@.format_spec,
                        *value,
                    ),
                forall|jj: int|
                    0 <= jj < j ==> call_ensures(
                        callback,
                        (#[trigger] sins[jj], &raw@[jj]),
                        souts[jj],
                    ),
            decreases m - j,
        {
            let fmt = self.placeholders[idx].1[j].format_spec.format(value);
            let ghost fmt_snap = fmt;
            let out = callback(fmt, &self.placeholders[idx].1[j]);
            let ov = str_to_chars(out.as_str());
            let rep = str_to_chars(self.placeholders[idx].1[j].replacer.as_str());
            proof {
                assert(self@.entries[idx as int].1[j as int].replacer.len() >= 1);
                assert(phs[j as int] == raw@[j as int]@);
            }
            let newt = replace_all_exec(&self.template, &rep, &ov);
            self.template = newt;
            j = j + 1;
            proof {
                let ghost prev_souts = souts;
                sins = sins.push(fmt_snap);
                souts = souts.push(out);
                lemma_apply_outs_snoc(
                    old_text,
                    phs.take(j - 1),
                    seq_views(prev_souts),
                    phs[j - 1],
                    ov@,
                );
                assert(phs.take(j - 1).push(phs[j - 1]) =~= phs.take(j as int));
                assert(seq_views(souts) =~= seq_views(prev_souts).push(out@));
            }
        }
        proof {
            assert(phs.take(m as int) =~= phs);
        }
        let ghost pre_remove = self@.entries;
        let _ = self.placeholders.remove(idx);
        proof {
            lemma_remove_key_at(pre_remove, placeholder@, idx as int);
            assert(entries_view(self.raw_entries()) =~= pre_remove.remove(idx as int));
            lemma_removed_wf(pre_remove, idx as int);
            assert(sins.len() == raw@.len() && souts.len() == raw@.len());
        }
    }

    /// Replace a template placeholder from a callback alone: for each
    /// occurrence, `callback` receives the placeholder and produces the
    /// full replacement text. This change is in place.
    pub fn replace_from_callback<F: Fn(&Placeholder) -> String>(
        &mut self,
        placeholder: &str,
        callback: F,
    )
        requires
            old(self).wf(),
            forall|p: &Placeholder| #[trigger] call_requires(callback, (p,)),
        ensures
            final(self).wf(),
            final(self)@.position == old(self)@.position,
            lookup(old(self)@.entries, placeholder@) is None ==> *final(self) == *old(self),
            match lookup_raw(old(self).raw_entries(), placeholder@) {
                None => *final(self) == *old(self),
                Some(raw) => final(self)@.entries == remove_key(
                    old(self)@.entries,
                    placeholder@,
                ) && exists|souts: Seq<String>|
                    #![trigger souts.len()]
                    souts.len() == raw@.len() && final(self)@.text == apply_outs(
                        old(self)@.text,
                        phs_view(raw@),
                        seq_views(souts),
                    ) && forall|j: int|
                        0 <= j < raw@.len() ==> call_ensures(
                            callback,
                            (&raw@[j],),
                            #[trigger] souts[j],
                        ),
            },
    {
        let nv = str_to_chars(placeholder);
        let idx = match self.find_entry(&nv) {
            None => {
                proof {
                    assert forall|j: int|
                        0 <= j < self.raw_entries().len() implies (#[trigger] self.raw_entries()[j]).0@
                        != placeholder@ by {
                        assert(entries_view(self.raw_entries())[j].0 == self.raw_entries()[j].0@);
                    }
                    lemma_lookup_absent(self@.entries, placeholder@);
                    lemma_lookup_raw_absent(self.raw_entries(), placeholder@);
                }
                return ;
            },
            Some(i) => i,
        };
        proof {
            lemma_lookup_at(self@.entries, placeholder@, idx as int);
            assert(self.raw_entries()[idx as int].0@ == placeholder@);
            assert forall|j: int|
                0 <= j < idx implies (#[trigger] self.raw_entries()[j]).0@ != placeholder@ by {
                assert(entries_view(self.raw_entries())[j].0 == self.raw_entries()[j].0@);
            }
            lemma_lookup_raw_at(self.raw_entries(), placeholder@, idx as int);
        }
        let ghost raw = self.raw_entries()[idx as int].1;
        let ghost phs = phs_view(raw@);
        let ghost old_text = self@.text;
        let ghost mut souts: Seq<String> = Seq::empty();
        let m = self.placeholders[idx].1.len();
        proof {
            assert(phs =~= self@.entries[idx as int].1);
            assert(phs.take(0) =~= Seq::<SpecPh>::empty());
            assert(seq_views(souts) =~= Seq::<Seq<char>>::empty());
        }
        let mut j: usize = 0;
        while j < m
            invariant
                j <= m,
                idx < self.raw_entries().len(),
                m == raw@.len(),
                self.raw_entries() == old(self).raw_entries(),
                raw == self.raw_entries()[idx as int].1,
                self@.position == old(self)@.position,
                phs == phs_view(raw@),
                entries_replacers(self@.entries),
                phs =~= self@.entries[idx as int].1,
                souts.len() == j,
                self@.text == apply_outs(old_text, phs.take(j as int), seq_views(souts)),
                forall|p: &Placeholder| #[trigger] call_requires(callback, (p,)),
                forall|jj: int|
                    0 <= jj < j ==> call_ensures(callback, (&raw@[jj],), #[trigger] souts[jj]),
            decreases m - j,
        {
            let out = callback(&self.placeholders[idx].1[j]);
            let ov = str_to_chars(out.as_str());
            let rep = str_to_chars(self.placeholders[idx].1[j].replacer.as_str());
            proof {
                assert(self@.entries[idx as int].1[j as int].replacer.len() >= 1);
                assert(phs[j as int] == raw@[j as int]@);
            }
            let newt = replace_all_exec(&self.template, &rep, &ov);
            self.template = newt;
            j = j + 1;
            proof {
                let ghost prev_souts = souts;
                souts = souts.push(out);
                lemma_apply_outs_snoc(
                    old_text,
                    phs.take(j - 1),
                    seq_views(prev_souts),
                    phs[j - 1],
                    ov@,
                );
                assert(phs.take(j - 1).push(phs[j - 1]) =~= phs.take(j as int));
                assert(seq_views(souts) =~= seq_views(prev_souts).push(out@));
            }
        }
        proof {
            assert(phs.take(m as int) =~= phs);
        }
        let ghost pre_remove = self@.entries;
        let _ = self.placeholders.remove(idx);
        proof {
            lemma_remove_key_at(pre_remove, placeholder@, idx as int);
            assert(entries_view(self.raw_entries()) =~= pre_remove.remove(idx as int));
            lemma_removed_wf(pre_remove, idx as int);
            assert(souts.len() == raw@.len());
        }
    }
}

/// Removing one entry keeps the map well formed.
proof fn lemma_removed_wf(es: Seq<(Seq<char>, Seq<SpecPh>)>, idx: int)
    requires
        0 <= idx < es.len(),
        entries_distinct(es),
        entries_nonempty(es),
        entries_replacers(es),
    ensures
        entries_distinct(es.remove(idx)),
        entries_nonempty(es.remove(idx)),
        entries_replacers(es.remove(idx)),
{
    let r = es.remove(idx);
    assert forall|i2: int, j2: int|
        0 <= i2 < j2 < r.len() implies (#[trigger] r[i2]).0 != (#[trigger] r[j2]).0 by {
        if j2 < idx {
            assert(r[i2] == es[i2]);
            assert(r[j2] == es[j2]);
        } else if i2 < idx {
            assert(r[i2] == es[i2]);
            assert(r[j2] == es[j2 + 1]);
        } else {
            assert(r[i2] == es[i2 + 1]);
            assert(r[j2] == es[j2 + 1]);
        }
    }
    assert forall|i2: int| 0 <= i2 < r.len() implies (#[trigger] r[i2]).1.len() >= 1 by {
        if i2 < idx {
            assert(r[i2] == es[i2]);
        } else {
            assert(r[i2] == es[i2 + 1]);
        }
    }
    assert forall|i2: int, j2: int|
        0 <= i2 < r.len() && 0 <= j2 < (#[trigger] r[i2]).1.len() implies (#[trigger] r[i2].1[j2]).replacer.len()
            >= 1 by {
        if i2 < idx {
            assert(r[i2] == es[i2]);
        } else {
            assert(r[i2] == es[i2 + 1]);
        }
    }
}


// --- the round-trip guarantee ---

/// A template with no placeholders round-trips. When the escaped text
/// holds no brace at all, construction succeeds with nothing to resolve,
/// and reading the template back yields the input with every escaped
/// `{{` and `}}` collapsed to a single brace — that is, the sentinels of
/// `escape` turned back by `unescape`, and nothing else changed.
pub proof fn lemma_no_placeholder_round_trip(input: Seq<char>)
    requires
        count_char(escape(input), '{') == 0,
        count_char(escape(input), '}') == 0,
    ensures
        spec_new(input) is Ok,
        spec_new(input)->Ok_0.entries.len() == 0,
        spec_new(input)->Ok_0.text == escape(input),
{
    let e = escape(input);
    crate::chars::lemma_count_zero(e, '{', 0);
    crate::chars::lemma_count_zero(e, '}', 0);
    crate::scan::lemma_discover_empty(e);
    crate::scan::lemma_renumber_id(e, 0, discover(e));
    assert(renumber(e, 0, discover(e)) == e);
    assert(spec_build(discover(e), e, Seq::<(Seq<char>, Seq<SpecPh>)>::empty()) == Ok::<
        Seq<(Seq<char>, Seq<SpecPh>)>,
        SpecErr,
    >(Seq::empty()));
}

/// For plain text — no brace and no opening bracket anywhere — the
/// round trip is exact: the template reads back as the input itself.
pub proof fn lemma_plain_text_round_trip(input: Seq<char>)
    requires
        forall|j: int| 0 <= j < input.len() ==> input[j] != '{',
        forall|j: int| 0 <= j < input.len() ==> input[j] != '}',
        forall|j: int| 0 <= j < input.len() ==> input[j] != '[',
    ensures
        spec_new(input) is Ok,
        spec_new(input)->Ok_0.entries.len() == 0,
        unescape(spec_new(input)->Ok_0.text) == input,
{
    crate::scan::lemma_esc_open_id(input);
    crate::scan::lemma_esc_close_id(input);
    let e = escape(input);
    assert(e == input);
    assert(count_char(e, '{') == 0) by {
        lemma_count_none(e, '{', 0);
    }
    assert(count_char(e, '}') == 0) by {
        lemma_count_none(e, '}', 0);
    }
    lemma_no_placeholder_round_trip(input);
    crate::scan::lemma_unescape_id(input);
}

/// A character that never occurs counts zero times.
proof fn lemma_count_none(s: Seq<char>, c: char, i: int)
    requires
        0 <= i,
        forall|j: int| 0 <= j < s.len() ==> s[j] != c,
    ensures
        count_char_from(s, c, i) == 0,
    decreases s.len() - i,
{
    if i < s.len() {
        lemma_count_none(s, c, i + 1);
    }
}

} // verus!
