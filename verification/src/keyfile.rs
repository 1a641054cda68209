//! A verified reader for the sectioned key-value text format of connection
//! profiles: `[section]` headers, `key=value` lines, `;`/`#` comments.
//!
//! Lines are trimmed of ASCII whitespace and cut at the first comment
//! character; section and key names are ASCII-lower-cased, so lookups are
//! case-insensitive; a key bound more than once keeps its last value. Text
//! before the first section header belongs to the section `default`. A
//! malformed line — a header without a closing bracket, a binding with an
//! empty key — binds nothing: the reader tolerates stray text instead of
//! failing the whole file, and the generated profiles it is used on never
//! contain such lines.

use vstd::prelude::*;
use vstd::string::StrSliceExecFns;
use crate::strutil::{
    ascii_lowercase, first_where, last_where, lemma_first_where_at, lemma_last_where_at, lower,
    split_lines, lines_of, str_eq, trim, trim_str,
};

verus! {

/// What one line of profile text contributes.
pub ghost enum LineClass {
    /// Empty, comment-only or malformed: binds nothing.
    Skip,
    /// A section header; the lower-cased section name.
    Section(Seq<char>),
    /// A key (lower-cased) with its value; `None` for a line without `=`.
    Binding(Seq<char>, Option<Seq<char>>),
}

/// A comment begins at `;` or `#`.
pub open spec fn comment_pred() -> spec_fn(char) -> bool {
    |c: char| c == ';' || c == '#'
}

/// Keys are separated from values at the first `=` or `:`.
pub open spec fn delim_pred() -> spec_fn(char) -> bool {
    |c: char| c == '=' || c == ':'
}

/// A section header ends at the last `]`.
pub open spec fn rbracket_pred() -> spec_fn(char) -> bool {
    |c: char| c == ']'
}

/// The effective text of a line: trimmed, with any inline comment removed.
pub open spec fn effective(raw: Seq<char>) -> Seq<char> {
    let t = trim(raw);
    trim(t.take(first_where(t, comment_pred())))
}

/// The classification of one raw line of profile text.
pub open spec fn classify(raw: Seq<char>) -> LineClass {
    let e = effective(raw);
    if e.len() == 0 {
        LineClass::Skip
    } else if e[0] == '[' {
        let end = last_where(e, rbracket_pred());
        if end >= 1 {
            LineClass::Section(lower(trim(e.subrange(1, end))))
        } else {
            LineClass::Skip
        }
    } else {
        let d = first_where(e, delim_pred());
        if d == e.len() {
            LineClass::Binding(lower(e), None)
        } else {
            let k = lower(trim(e.take(d)));
            if k.len() == 0 {
                LineClass::Skip
            } else {
                LineClass::Binding(k, Some(trim(e.skip(d + 1))))
            }
        }
    }
}

/// The binding (if any) that `lines` give to `key` in `section`, reading
/// under the current section name `cur`; a later binding overrides an
/// earlier one.
pub open spec fn lookup_lines(
    lines: Seq<Seq<char>>,
    cur: Seq<char>,
    section: Seq<char>,
    key: Seq<char>,
) -> Option<Option<Seq<char>>>
    decreases lines.len(),
{
    if lines.len() == 0 {
        None
    } else {
        let cur2 = match classify(lines[0]) {
            LineClass::Section(name) => name,
            _ => cur,
        };
        let rest = lookup_lines(lines.drop_first(), cur2, section, key);
        if rest is Some {
            rest
        } else {
            match classify(lines[0]) {
                LineClass::Binding(k, v) => if cur == section && k == key {
                    Some(v)
                } else {
                    None
                },
                _ => None,
            }
        }
    }
}

/// The value `content` binds to `key` in `section`; the lookup is
/// case-insensitive in section and key.
pub open spec fn keyfile_get_spec(
    content: Seq<char>,
    section: Seq<char>,
    key: Seq<char>,
) -> Option<Seq<char>> {
    match lookup_lines(split_lines(content), "default"@, lower(section), lower(key)) {
        Some(Some(v)) => Some(v),
        _ => None,
    }
}

/// The executable counterpart of [`LineClass`].
enum LineItem {
    Skip,
    Section(String),
    Binding(String, Option<String>),
}

/// Whether `c` opens a comment.
fn is_comment_c(c: char) -> (r: bool)
    ensures
        r == (comment_pred())(c),
{
    c == ';' || c == '#'
}

/// Whether `c` separates a key from its value.
fn is_delim_c(c: char) -> (r: bool)
    ensures
        r == (delim_pred())(c),
{
    c == '=' || c == ':'
}

/// Whether `c` closes a section header.
fn is_rbracket_c(c: char) -> (r: bool)
    ensures
        r == (rbracket_pred())(c),
{
    c == ']'
}

/// Classifies one raw line of profile text.
fn classify_line(raw: &str) -> (r: LineItem)
    ensures
        match r {
            LineItem::Skip => classify(raw@) is Skip,
            LineItem::Section(name) => classify(raw@) == LineClass::Section(name@),
            LineItem::Binding(k, v) => classify(raw@) == LineClass::Binding(
                k@,
                crate::types::opt_view(v),
            ),
        },
{
    let t = trim_str(raw);
    let tn = t.as_str().unicode_len();
    // Cut at the first comment character.
    let mut ci: usize = 0;
    while ci < tn && !is_comment_c(t.as_str().get_char(ci))
        invariant
            tn == t@.len(),
            ci <= tn,
            forall|j: int| 0 <= j < ci ==> !(comment_pred()(t@[j])),
        decreases tn - ci,
    {
        ci = ci + 1;
    }
    proof {
        if ci < tn {
            assert((comment_pred())(t@[ci as int]));
        }
        lemma_first_where_at(t@, comment_pred(), ci as int);
    }
    let cut = t.as_str().substring_char(0, ci);
    assert(cut@ =~= t@.take(ci as int));
    let e = trim_str(cut);
    let ghost ev = effective(raw@);
    assert(e@ == ev);
    let en = e.as_str().unicode_len();
    if en == 0 {
        return LineItem::Skip;
    }
    if e.as_str().get_char(0) == '[' {
        // The section name runs to the last `]`.
        let mut end: usize = en;
        while end > 0 && !is_rbracket_c(e.as_str().get_char(end - 1))
            invariant
                en == e@.len(),
                end <= en,
                forall|j: int| end <= j < en ==> !(rbracket_pred()(e@[j])),
            decreases end,
        {
            end = end - 1;
        }
        proof {
            if end > 0 {
                assert((rbracket_pred())(e@[end - 1]));
            }
            lemma_last_where_at(e@, rbracket_pred(), end - 1);
        }
        if end <= 1 {
            // `end == 1` means the bracket at position 0 closes nothing:
            // the opening bracket itself cannot end the header.
            if end == 1 {
                assert(e@[0] == '[');
                assert(last_where(e@, rbracket_pred()) == 0);
            }
            return LineItem::Skip;
        }
        let inner = e.as_str().substring_char(1, end - 1);
        assert(inner@ =~= e@.subrange(1, last_where(e@, rbracket_pred())));
        let name = ascii_lowercase(trim_str(inner).as_str());
        return LineItem::Section(name);
    }
    // Split at the first delimiter.
    let mut d: usize = 0;
    while d < en && !is_delim_c(e.as_str().get_char(d))
        invariant
            en == e@.len(),
            d <= en,
            forall|j: int| 0 <= j < d ==> !(delim_pred()(e@[j])),
        decreases en - d,
    {
        d = d + 1;
    }
    proof {
        if d < en {
            assert((delim_pred())(e@[d as int]));
        }
        lemma_first_where_at(e@, delim_pred(), d as int);
    }
    if d == en {
        let k = ascii_lowercase(e.as_str());
        assert(e@.take(d as int) =~= e@);
        return LineItem::Binding(k, None);
    }
    let left = e.as_str().substring_char(0, d);
    assert(left@ =~= e@.take(d as int));
    let k = ascii_lowercase(trim_str(left).as_str());
    if k.as_str().is_empty() {
        return LineItem::Skip;
    }
    let right = e.as_str().substring_char(d + 1, en);
    assert(right@ =~= e@.skip(d + 1));
    let v = trim_str(right);
    LineItem::Binding(k, Some(v))
}

/// The view of a pending lookup result.
pub open spec fn acc_view(o: Option<Option<String>>) -> Option<Option<Seq<char>>> {
    match o {
        Some(Some(v)) => Some(Some(v@)),
        Some(None) => Some(None),
        None => None,
    }
}

/// Looks `key` up in `section` of the profile text `content`.
///
/// Returns the value of the last binding of `key` inside `section`, with
/// section and key compared case-insensitively; `None` when no such binding
/// exists or the last one carries no value.
pub fn keyfile_get(content: &str, section: &str, key: &str) -> (r: Option<String>)
    ensures
        match r {
            Some(v) => keyfile_get_spec(content@, section@, key@) == Some(v@),
            None => keyfile_get_spec(content@, section@, key@) is None,
        },
{
    let lines = lines_of(content);
    let ghost lsv = lines@.map_values(|t: String| t@);
    let secq = ascii_lowercase(section);
    let keyq = ascii_lowercase(key);
    let mut cur: String = "default".to_owned();
    let mut acc: Option<Option<String>> = None;
    let n = lines.len();
    let mut i: usize = 0;
    proof {
        assert(lsv.skip(0) =~= lsv);
    }
    while i < n
        invariant
            lsv == lines@.map_values(|t: String| t@),
            n == lines@.len(),
            i <= n,
            secq@ == lower(section@),
            keyq@ == lower(key@),
            lookup_lines(lsv, "default"@, secq@, keyq@) == (match lookup_lines(
                lsv.skip(i as int),
                cur@,
                secq@,
                keyq@,
            ) {
                Some(x) => Some(x),
                None => acc_view(acc),
            }),
        decreases n - i,
    {
        let ghost cur_pre = cur@;
        let ghost acc_pre = acc_view(acc);
        let ghost tail = lsv.skip(i as int);
        let ghost tail2 = lsv.skip(i + 1);
        proof {
            assert(tail[0] == lsv[i as int]);
            assert(tail.drop_first() =~= tail2);
            assert(lines@[i as int]@ == lsv[i as int]);
        }
        match classify_line(lines[i].as_str()) {
            LineItem::Skip => {
                proof {
                    assert(lookup_lines(tail, cur_pre, secq@, keyq@) == lookup_lines(
                        tail2,
                        cur_pre,
                        secq@,
                        keyq@,
                    ));
                }
            },
            LineItem::Section(name) => {
                cur = name;
                proof {
                    assert(lookup_lines(tail, cur_pre, secq@, keyq@) == lookup_lines(
                        tail2,
                        cur@,
                        secq@,
                        keyq@,
                    ));
                }
            },
            LineItem::Binding(k, v) => {
                let hit = str_eq(cur.as_str(), secq.as_str()) && str_eq(k.as_str(), keyq.as_str());
                proof {
                    let rest = lookup_lines(tail2, cur_pre, secq@, keyq@);
                    if hit {
                        assert(lookup_lines(tail, cur_pre, secq@, keyq@) == (if rest is Some {
                            rest
                        } else {
                            Some(crate::types::opt_view(v))
                        }));
                    } else {
                        assert(lookup_lines(tail, cur_pre, secq@, keyq@) == (if rest is Some {
                            rest
                        } else {
                            Option::<Option<Seq<char>>>::None
                        }));
                    }
                }
                if hit {
                    acc = Some(v);
                }
            },
        }
        i = i + 1;
    }
    proof {
        assert(lsv.skip(n as int) =~= Seq::<Seq<char>>::empty());
    }
    match acc {
        Some(Some(v)) => Some(v),
        _ => None,
    }
}

} // verus!
