//! Placeholders.
//!
//! One parsed occurrence of a name inside template text: its free-text
//! attributes, its format specification, and the exact bracketed substring
//! (the replacer) that substitution later rewrites.

use vstd::prelude::*;
use crate::chars::chars_to_string;
use crate::chars::cut_after_quote;
use crate::chars::find_from;
use crate::chars::find_pat;
use crate::chars::lemma_find_from_some;
use crate::chars::lemma_rfind_some;
use crate::chars::rfind;
use crate::chars::rfind_pat;
use crate::chars::str_to_chars;
use crate::chars::strip_prefix_rep;
use crate::chars::strip_prefix_rep_exec;
use crate::chars::subvec;
use crate::chars::push_all;
use crate::chars::trim;
use crate::chars::trim_exec;
use crate::error::Error;
use crate::error::SpecErr;
use crate::format_spec::cut_at_space;
use crate::format_spec::spec_fs_new;
use crate::format_spec::FormatSpec;
use crate::format_spec::SpecFmt;
use crate::numeric::find_char;

verus! {

/// Template placeholder specifications.
#[derive(Debug, Clone)]
pub struct Placeholder {
    /// The free-text attribute region, if non-empty.
    pub attributes: Option<String>,
    /// The parsed format specification.
    pub format_spec: FormatSpec,
    /// The exact bracketed substring to substitute.
    pub replacer: String,
}

/// The mathematical content of a placeholder.
pub ghost struct SpecPh {
    /// The attribute text, if non-empty.
    pub attributes: Option<Seq<char>>,
    /// The parsed format specification.
    pub format_spec: SpecFmt,
    /// The exact bracketed substring to substitute.
    pub replacer: Seq<char>,
}

impl View for Placeholder {
    type V = SpecPh;

    open spec fn view(&self) -> SpecPh {
        SpecPh {
            attributes: match self.attributes {
                Some(a) => Some(a@),
                None => None,
            },
            format_spec: self.format_spec@,
            replacer: self.replacer@,
        }
    }
}

// --- locating one occurrence ---

/// The attribute text of a matched span: everything before the last colon
/// (or the whole span without one), with leading copies of the name and
/// surrounding whitespace removed; absent when empty.
pub open spec fn spec_attrs(matched: Seq<char>, name: Seq<char>) -> Option<Seq<char>> {
    let a0 = match rfind(matched, seq![':']) {
        Some(ci) => matched.take(ci),
        None => matched,
    };
    let a1 = trim(strip_prefix_rep(a0, name));
    if a1.len() == 0 {
        None
    } else {
        Some(a1)
    }
}

/// Locating the first occurrence of `name` in `template`: the span runs from
/// `{name` to the next closing brace; its text is split into attributes and
/// format specification. Absent when no occurrence (or no closing brace)
/// remains; an error when the format specification is refused.
pub open spec fn spec_locate(template: Seq<char>, name: Seq<char>) -> Result<
    Option<SpecPh>,
    SpecErr,
> {
    match find_from(template, seq!['{'] + name, 0) {
        None => Ok(None),
        Some(start) => match find_from(template, seq!['}'], start) {
            None => Ok(None),
            Some(close) => {
                let matched = template.subrange(start + 1, close);
                match spec_fs_new(matched) {
                    Err(e) => Err(e),
                    Ok(f) => Ok(
                        Some(
                            SpecPh {
                                attributes: spec_attrs(matched, name),
                                format_spec: f,
                                replacer: seq!['{'] + matched + seq!['}'],
                            },
                        ),
                    ),
                }
            },
        },
    }
}

impl Placeholder {
    /// Locate the first occurrence of `name` in `template`, as `spec_locate`
    /// describes it.
    pub(crate) fn locate(template: &Vec<char>, name: &Vec<char>) -> (r: Result<
        Option<Placeholder>,
        Error,
    >)
        ensures
            match r {
                Ok(Some(p)) => spec_locate(template@, name@) == Ok::<Option<SpecPh>, SpecErr>(
                    Some(p@),
                ),
                Ok(None) => spec_locate(template@, name@) == Ok::<Option<SpecPh>, SpecErr>(None),
                Err(e) => spec_locate(template@, name@) == Err::<Option<SpecPh>, SpecErr>(e@),
            },
    {
        let mut pat: Vec<char> = Vec::new();
        pat.push('{');
        push_all(&mut pat, name);
        proof {
            assert(pat@ =~= seq!['{'] + name@);
        }
        let start = match find_pat(template, &pat, 0) {
            None => {
                return Ok(None);
            },
            Some(s) => s,
        };
        proof {
            lemma_find_from_some(template@, pat@, 0, start as int);
            assert(template@.subrange(start as int, start + pat@.len())[0] == template@[start as int]);
            assert(pat@[0] == '{');
        }
        let close = match find_char(template, '}', start) {
            None => {
                return Ok(None);
            },
            Some(c) => c,
        };
        proof {
            lemma_find_from_some(template@, seq!['}'], start as int, close as int);
            assert(template@.subrange(close as int, close + 1)[0] == template@[close as int]);
            assert(template@[close as int] == '}');
            assert(start < close);
        }
        let matched = subvec(template, start + 1, close);
        proof {
            assert(matched@ =~= template@.subrange(start + 1, close as int));
        }
        let format_spec = match FormatSpec::new(&matched) {
            Err(e) => {
                return Err(e);
            },
            Ok(f) => f,
        };
        let attributes = attrs_exec(&matched, name);
        let mut replacer: Vec<char> = Vec::new();
        replacer.push('{');
        push_all(&mut replacer, &matched);
        replacer.push('}');
        proof {
            assert(replacer@ =~= seq!['{'] + matched@ + seq!['}']);
        }
        Ok(
            Some(
                Placeholder {
                    attributes,
                    format_spec,
                    replacer: chars_to_string(&replacer),
                },
            ),
        )
    }

    /// Parse template text and extract the first occurrence of a
    /// placeholder name, as `spec_locate` describes it.
    pub fn new(template: &str, placeholder: &str) -> (r: Result<Option<Placeholder>, Error>)
        ensures
            match r {
                Ok(Some(p)) => spec_locate(template@, placeholder@) == Ok::<
                    Option<SpecPh>,
                    SpecErr,
                >(Some(p@)),
                Ok(None) => spec_locate(template@, placeholder@) == Ok::<Option<SpecPh>, SpecErr>(
                    None,
                ),
                Err(e) => spec_locate(template@, placeholder@) == Err::<Option<SpecPh>, SpecErr>(
                    e@,
                ),
            },
    {
        let tv = str_to_chars(template);
        let nv = str_to_chars(placeholder);
        Placeholder::locate(&tv, &nv)
    }
}

/// Compute the attribute text of a matched span, as `spec_attrs` describes
/// it.
fn attrs_exec(matched: &Vec<char>, name: &Vec<char>) -> (r: Option<String>)
    ensures
        (match r {
            Some(a) => Some(a@),
            None => None,
        }) == spec_attrs(matched@, name@),
{
    let mut colon: Vec<char> = Vec::new();
    colon.push(':');
    proof {
        assert(colon@ =~= seq![':']);
    }
    let a0 = match rfind_pat(matched, &colon) {
        Some(ci) => {
            proof {
                lemma_rfind_some(matched@, seq![':'], ci as int);
            }
            let t = subvec(matched, 0, ci);
            proof {
                assert(t@ =~= matched@.take(ci as int));
            }
            t
        },
        None => {
            let t = subvec(matched, 0, matched.len());
            proof {
                assert(t@ =~= matched@);
            }
            t
        },
    };
    let a1 = trim_exec(&strip_prefix_rep_exec(&a0, name));
    if a1.len() == 0 {
        None
    } else {
        Some(chars_to_string(&a1))
    }
}

// --- attribute lookup ---

/// Attribute lookup in attribute text: after `key=`, an unquoted value runs
/// to the next space, a quoted one to its matching quote; absent without a
/// closing quote.
pub open spec fn spec_attr_lookup(s: Seq<char>, key: Seq<char>) -> Option<Seq<char>> {
    let ident = key + seq!['='];
    match find_from(s, ident, 0) {
        None => None,
        Some(i) => {
            let v = strip_prefix_rep(s.skip(i), ident);
            if v.len() > 0 && v[0] == '"' {
                match find_from(v, seq!['"'], 1) {
                    Some(k) => Some(v.subrange(1, k)),
                    None => None,
                }
            } else if v.len() > 0 && v[0] == '\'' {
                match find_from(v, seq!['\''], 1) {
                    Some(k) => Some(v.subrange(1, k)),
                    None => None,
                }
            } else {
                Some(cut_at_space(v))
            }
        },
    }
}

/// The attribute value for `key`, if this placeholder carries attributes
/// and one of its `key=value` tokens matches.
pub open spec fn spec_attr(p: SpecPh, key: Seq<char>) -> Option<Seq<char>> {
    match p.attributes {
        Some(s) => spec_attr_lookup(s, key),
        None => None,
    }
}

impl Placeholder {
    /// Get attribute value if present else returns `None`.
    ///
    /// Attributes are whitespace-separated `key=value` tokens; a value may
    /// be unquoted, double-quoted or single-quoted.
    pub fn attr(&self, attribute: &str) -> (r: Option<String>)
        ensures
            (match r {
                Some(a) => Some(a@),
                None => None,
            }) == spec_attr(self@, attribute@),
    {
        let attrs = match &self.attributes {
            None => {
                return None;
            },
            Some(a) => a,
        };
        let s = str_to_chars(attrs.as_str());
        let key = str_to_chars(attribute);
        let mut ident = key;
        ident.push('=');
        proof {
            assert(ident@ =~= attribute@ + seq!['=']);
        }
        let i = match find_pat(&s, &ident, 0) {
            None => {
                return None;
            },
            Some(i) => i,
        };
        proof {
            lemma_find_from_some(s@, ident@, 0, i as int);
        }
        let tail = subvec(&s, i, s.len());
        proof {
            assert(tail@ =~= s@.skip(i as int));
        }
        let v = strip_prefix_rep_exec(&tail, &ident);
        if v.len() > 0 && v[0] == '"' {
            match cut_after_quote(&v, '"') {
                Some(t) => Some(chars_to_string(&t)),
                None => None,
            }
        } else if v.len() > 0 && v[0] == '\'' {
            match cut_after_quote(&v, '\'') {
                Some(t) => Some(chars_to_string(&t)),
                None => None,
            }
        } else {
            match find_char(&v, ' ', 0) {
                Some(k) => {
                    proof {
                        lemma_find_from_some(v@, seq![' '], 0, k as int);
                    }
                    let t = subvec(&v, 0, k);
                    proof {
                        assert(t@ =~= v@.take(k as int));
                    }
                    Some(chars_to_string(&t))
                },
                None => {
                    let t = subvec(&v, 0, v.len());
                    proof {
                        assert(t@ =~= v@);
                    }
                    Some(chars_to_string(&t))
                },
            }
        }
    }
}

} // verus!
