//! Verified building blocks for the text manipulation the library does:
//! ASCII case folding, substring search, single-pass textual substitution
//! and list joining, all specified over `Seq<char>`.

use vstd::prelude::*;

verus! {

/// ASCII lower-casing of one character; characters outside 'A'..'Z' are untouched.
pub open spec fn lower_char(c: char) -> char {
    if 'A' <= c && c <= 'Z' {
        ((c as u32) + 32) as char
    } else {
        c
    }
}

/// ASCII lower-casing of a character sequence.
pub open spec fn lower(s: Seq<char>) -> Seq<char> {
    s.map_values(|c: char| lower_char(c))
}

/// Relies on `String`'s `FromIterator<char>` impl: collecting characters
/// yields the string of exactly those characters, in order.
#[verifier::external_body]
pub(crate) fn string_from_chars(v: &Vec<char>) -> (r: String)
    ensures
        r@ == v@,
{
    v.iter().collect()
}

/// ASCII lower-casing of a string, as used to normalize MAC addresses.
pub fn ascii_lowercase(s: &str) -> (r: String)
    ensures
        r@ == lower(s@),
{
    let n = s.unicode_len();
    let mut buf: Vec<char> = Vec::new();
    let mut i: usize = 0;
    while i < n
        invariant
            n == s@.len(),
            i <= n,
            buf@ == lower(s@.take(i as int)),
        decreases n - i,
    {
        let c = s.get_char(i);
        let lc: char = if 'A' <= c && c <= 'Z' {
            ((c as u8) + 32) as char
        } else {
            c
        };
        assert(lc == lower_char(s@[i as int]));
        buf.push(lc);
        assert(buf@ =~= lower(s@.take(i + 1 as int)));
        i = i + 1;
    }
    assert(s@.take(n as int) =~= s@);
    string_from_chars(&buf)
}

/// Character-wise string equality; equivalent to equality of the views.
pub fn str_eq(a: &str, b: &str) -> (r: bool)
    ensures
        r == (a@ == b@),
{
    let an = a.unicode_len();
    let bn = b.unicode_len();
    if an != bn {
        assert(a@ != b@);
        return false;
    }
    let mut i: usize = 0;
    while i < an
        invariant
            an == a@.len(),
            an == b@.len(),
            i <= an,
            forall|j: int| 0 <= j < i ==> a@[j] == b@[j],
        decreases an - i,
    {
        if a.get_char(i) != b.get_char(i) {
            return false;
        }
        i = i + 1;
    }
    assert(a@ =~= b@);
    true
}

/// The pattern `pat` occurs in `s` at position `i`.
pub open spec fn match_at(s: Seq<char>, pat: Seq<char>, i: int) -> bool {
    0 <= i && i + pat.len() <= s.len() && s.subrange(i, i + pat.len()) == pat
}

/// The pattern `pat` occurs somewhere in `s`.
pub open spec fn contains_sub(s: Seq<char>, pat: Seq<char>) -> bool {
    exists|i: int| match_at(s, pat, i)
}

/// Whether `pat` occurs in `s` at position `i`, checked character by character.
fn match_at_exec(s: &str, pat: &str, i: usize, n: usize, m: usize) -> (r: bool)
    requires
        n == s@.len(),
        m == pat@.len(),
        i <= n,
        m <= n - i,
    ensures
        r == match_at(s@, pat@, i as int),
{
    let mut j: usize = 0;
    while j < m
        invariant
            n == s@.len(),
            m == pat@.len(),
            i <= n,
            m <= n - i,
            j <= m,
            forall|k: int| 0 <= k < j ==> s@[i + k] == pat@[k],
        decreases m - j,
    {
        if s.get_char(i + j) != pat.get_char(j) {
            assert(s@.subrange(i as int, i + m) != pat@) by {
                assert(s@.subrange(i as int, i + m)[j as int] != pat@[j as int]);
            }
            return false;
        }
        j = j + 1;
    }
    assert(s@.subrange(i as int, i + m) =~= pat@);
    true
}

/// Position of the first occurrence of `pat` in `s`, if any.
pub fn find_sub(s: &str, pat: &str) -> (r: Option<usize>)
    ensures
        match r {
            Some(i) => match_at(s@, pat@, i as int) && forall|j: int|
                0 <= j < i ==> !match_at(s@, pat@, j),
            None => !contains_sub(s@, pat@),
        },
{
    let n = s.unicode_len();
    let m = pat.unicode_len();
    if m > n {
        assert(forall|i: int| !match_at(s@, pat@, i));
        return None;
    }
    if m == 0 {
        assert(match_at(s@, pat@, 0)) by {
            assert(s@.subrange(0, 0) =~= pat@);
        }
        return Some(0);
    }
    let mut i: usize = 0;
    while i <= n - m
        invariant
            n == s@.len(),
            m == pat@.len(),
            1 <= m <= n,
            i <= n - m + 1,
            forall|j: int| 0 <= j < i ==> !match_at(s@, pat@, j),
        decreases n - m + 1 - i,
    {
        if match_at_exec(s, pat, i, n, m) {
            return Some(i);
        }
        i = i + 1;
    }
    assert(forall|j: int| j > n - m ==> !match_at(s@, pat@, j));
    None
}

/// Whether `pat` occurs in `s`.
pub fn contains(s: &str, pat: &str) -> (r: bool)
    ensures
        r == contains_sub(s@, pat@),
{
    find_sub(s, pat).is_some()
}

/// Replacement of every occurrence of `from` in `s` by `to`: occurrences are
/// found left to right and do not overlap; an empty `from` replaces nothing.
pub open spec fn replace_seq(s: Seq<char>, from: Seq<char>, to: Seq<char>) -> Seq<char>
    decreases s.len(),
{
    if from.len() == 0 || s.len() < from.len() {
        s
    } else if s.take(from.len() as int) == from {
        to + replace_seq(s.skip(from.len() as int), from, to)
    } else {
        s.take(1) + replace_seq(s.skip(1), from, to)
    }
}

/// Replaces every occurrence of `from` in `s` by `to`, left to right and
/// without overlap. An empty `from` leaves `s` unchanged.
pub fn replace_all(s: &str, from: &str, to: &str) -> (r: String)
    ensures
        r@ == replace_seq(s@, from@, to@),
{
    let n = s.unicode_len();
    let m = from.unicode_len();
    let tn = to.unicode_len();
    if m == 0 {
        return s.to_owned();
    }
    let mut out: Vec<char> = Vec::new();
    let mut i: usize = 0;
    assert(s@.skip(0) =~= s@);
    assert(Seq::<char>::empty() + replace_seq(s@, from@, to@) =~= replace_seq(s@, from@, to@));
    while i < n
        invariant
            n == s@.len(),
            m == from@.len(),
            tn == to@.len(),
            1 <= m,
            i <= n,
            replace_seq(s@, from@, to@) == out@ + replace_seq(s@.skip(i as int), from@, to@),
        decreases n - i,
    {
        let ghost prev = out@;
        let ghost tail = s@.skip(i as int);
        if m <= n - i && match_at_exec(s, from, i, n, m) {
            assert(tail.take(m as int) =~= from@);
            assert(tail.skip(m as int) =~= s@.skip(i + m));
            let mut j: usize = 0;
            while j < tn
                invariant
                    tn == to@.len(),
                    j <= tn,
                    out@ == prev + to@.take(j as int),
                decreases tn - j,
            {
                out.push(to.get_char(j));
                assert(out@ =~= prev + to@.take(j + 1 as int));
                j = j + 1;
            }
            assert(to@.take(tn as int) =~= to@);
            assert(out@ + replace_seq(s@.skip(i + m), from@, to@) =~= prev + replace_seq(tail,
                from@,
                to@,
            ));
            i = i + m;
        } else {
            // Either the tail is shorter than the pattern (then the
            // replacement keeps it as it is, character by character), or the
            // pattern does not occur here.
            proof {
                if tail.len() >= m as int {
                    assert(tail.take(m as int) != from@) by {
                        assert(tail.take(m as int) =~= s@.subrange(i as int, i + m));
                    }
                    assert(replace_seq(tail, from@, to@) == tail.take(1) + replace_seq(
                        tail.skip(1),
                        from@,
                        to@,
                    ));
                } else {
                    assert(replace_seq(tail, from@, to@) == tail);
                    assert(tail.skip(1).len() < m);
                    assert(replace_seq(tail.skip(1), from@, to@) == tail.skip(1));
                    assert(tail =~= tail.take(1) + tail.skip(1));
                    assert(tail + replace_seq(tail.skip(1), from@, to@) == tail + tail.skip(1));
                }
                assert(tail.take(1) =~= seq![s@[i as int]]);
                assert(tail.skip(1) =~= s@.skip(i + 1));
            }
            out.push(s.get_char(i));
            assert(out@ =~= prev + seq![s@[i as int]]);
            assert(out@ + replace_seq(s@.skip(i + 1), from@, to@) =~= prev + replace_seq(
                tail,
                from@,
                to@,
            ));
            i = i + 1;
        }
    }
    assert(s@.skip(n as int) =~= Seq::<char>::empty());
    assert(replace_seq(s@.skip(n as int), from@, to@) =~= Seq::<char>::empty());
    assert(replace_seq(s@, from@, to@) =~= out@);
    string_from_chars(&out)
}

/// A pattern that occurs anywhere but at the front still occurs after the
/// first character is dropped.
proof fn lemma_contains_shift(s: Seq<char>, pat: Seq<char>)
    requires
        contains_sub(s, pat),
        !match_at(s, pat, 0),
    ensures
        contains_sub(s.drop_first(), pat),
{
    let i = choose|i: int| match_at(s, pat, i);
    assert(i != 0);
    assert(s.drop_first().subrange(i - 1, i - 1 + pat.len()) =~= s.subrange(i, i + pat.len()));
    assert(match_at(s.drop_first(), pat, i - 1));
}

/// With `to` at least as long as `from`, replacement never shortens the text.
proof fn lemma_replace_len_ge(s: Seq<char>, from: Seq<char>, to: Seq<char>)
    requires
        from.len() <= to.len(),
    ensures
        replace_seq(s, from, to).len() >= s.len(),
    decreases s.len(),
{
    if from.len() == 0 || s.len() < from.len() {
    } else if s.take(from.len() as int) == from {
        lemma_replace_len_ge(s.skip(from.len() as int), from, to);
    } else {
        lemma_replace_len_ge(s.skip(1), from, to);
    }
}

/// With `to` at most as long as `from`, replacement never lengthens the text.
proof fn lemma_replace_len_le(s: Seq<char>, from: Seq<char>, to: Seq<char>)
    requires
        to.len() <= from.len(),
    ensures
        replace_seq(s, from, to).len() <= s.len(),
    decreases s.len(),
{
    if from.len() == 0 || s.len() < from.len() {
    } else if s.take(from.len() as int) == from {
        lemma_replace_len_le(s.skip(from.len() as int), from, to);
    } else {
        lemma_replace_len_le(s.skip(1), from, to);
    }
}

/// With `to` and `from` of one length, replacement keeps the text's length.
proof fn lemma_replace_len_eq(s: Seq<char>, from: Seq<char>, to: Seq<char>)
    requires
        to.len() == from.len(),
    ensures
        replace_seq(s, from, to).len() == s.len(),
    decreases s.len(),
{
    if from.len() == 0 || s.len() < from.len() {
    } else if s.take(from.len() as int) == from {
        lemma_replace_len_eq(s.skip(from.len() as int), from, to);
    } else {
        lemma_replace_len_eq(s.skip(1), from, to);
    }
}

/// Replacing a pattern that occurs, by something else, changes the text.
pub proof fn lemma_replace_changes(s: Seq<char>, from: Seq<char>, to: Seq<char>)
    requires
        from.len() > 0,
        from != to,
        contains_sub(s, from),
    ensures
        replace_seq(s, from, to) != s,
    decreases s.len(),
{
    let f = from.len() as int;
    let r = replace_seq(s, from, to);
    let i = choose|i: int| match_at(s, from, i);
    assert(from.len() <= s.len());
    if s.take(f) == from {
        if to.len() > from.len() {
            lemma_replace_len_ge(s.skip(f), from, to);
            assert(r.len() > s.len());
        } else if to.len() < from.len() {
            lemma_replace_len_le(s.skip(f), from, to);
            assert(r.len() < s.len());
        } else {
            lemma_replace_len_eq(s.skip(f), from, to);
            assert(r.len() == s.len());
            assert(exists|d: int| 0 <= d < f && from[d] != to[d]) by {
                if forall|d: int| 0 <= d < f ==> from[d] == to[d] {
                    assert(from =~= to);
                }
            }
            let d = choose|d: int| 0 <= d < f && from[d] != to[d];
            assert(r[d] == to[d]);
            assert(s[d] == from[d]);
        }
    } else {
        assert(!match_at(s, from, 0)) by {
            if match_at(s, from, 0) {
                assert(s.subrange(0, f) =~= s.take(f));
            }
        }
        lemma_contains_shift(s, from);
        assert(s.drop_first() =~= s.skip(1));
        lemma_replace_changes(s.skip(1), from, to);
        if r == s {
            assert(r == s.take(1) + replace_seq(s.skip(1), from, to));
            if to.len() > from.len() {
                lemma_replace_len_ge(s.skip(1), from, to);
            } else if to.len() < from.len() {
                lemma_replace_len_le(s.skip(1), from, to);
            } else {
                lemma_replace_len_eq(s.skip(1), from, to);
            }
            assert(replace_seq(s.skip(1), from, to).len() == s.len() - 1);
            assert forall|j: int| 0 <= j < s.len() - 1 implies replace_seq(s.skip(1), from, to)[j]
                == s.skip(1)[j] by {
                assert(r[j + 1] == replace_seq(s.skip(1), from, to)[j]);
                assert(s[j + 1] == s.skip(1)[j]);
            }
            assert(replace_seq(s.skip(1), from, to) =~= s.skip(1));
        }
    }
}

/// Index of the first character of `s` satisfying `p`, or `s.len()` if none does.
pub open spec fn first_where(s: Seq<char>, p: spec_fn(char) -> bool) -> int
    decreases s.len(),
{
    if s.len() == 0 {
        0
    } else if p(s[0]) {
        0
    } else {
        1 + first_where(s.drop_first(), p)
    }
}

/// The converse direction: a position known to be the first hit is `first_where`.
pub proof fn lemma_first_where_at(s: Seq<char>, p: spec_fn(char) -> bool, i: int)
    requires
        0 <= i <= s.len(),
        forall|j: int| 0 <= j < i ==> !p(s[j]),
        i == s.len() || p(s[i]),
    ensures
        first_where(s, p) == i,
    decreases i,
{
    if i == 0 {
    } else {
        assert(!p(s[0]));
        lemma_first_where_at(s.drop_first(), p, i - 1);
    }
}

/// Index of the last character of `s` satisfying `p`, or `-1` if none does.
pub open spec fn last_where(s: Seq<char>, p: spec_fn(char) -> bool) -> int
    decreases s.len(),
{
    if s.len() == 0 {
        -1
    } else if p(s.last()) {
        s.len() - 1
    } else {
        last_where(s.drop_last(), p)
    }
}

pub proof fn lemma_last_where_at(s: Seq<char>, p: spec_fn(char) -> bool, i: int)
    requires
        -1 <= i < s.len(),
        forall|j: int| i < j < s.len() ==> !p(s[j]),
        i == -1 || p(s[i]),
    ensures
        last_where(s, p) == i,
    decreases s.len(),
{
    if i == s.len() - 1 {
    } else if s.len() > 0 {
        assert(!p(s.last()));
        assert(forall|j: int| i < j < s.len() - 1 ==> s.drop_last()[j] == s[j]);
        lemma_last_where_at(s.drop_last(), p, i);
    }
}

/// The dot character, at which file extensions begin.
pub open spec fn dot_pred() -> spec_fn(char) -> bool {
    |c: char| c == '.'
}

/// Whether `c` is a dot.
pub fn is_dot_c(c: char) -> (r: bool)
    ensures
        r == (dot_pred())(c),
{
    c == '.'
}

/// ASCII whitespace, as it occurs inside connection-profile text.
pub open spec fn is_ws(c: char) -> bool {
    c == ' ' || c == '\t' || c == '\r'
}

/// `s` without leading whitespace.
pub open spec fn trim_front(s: Seq<char>) -> Seq<char>
    decreases s.len(),
{
    if s.len() > 0 && is_ws(s[0]) {
        trim_front(s.drop_first())
    } else {
        s
    }
}

/// `s` without trailing whitespace.
pub open spec fn trim_back(s: Seq<char>) -> Seq<char>
    decreases s.len(),
{
    if s.len() > 0 && is_ws(s.last()) {
        trim_back(s.drop_last())
    } else {
        s
    }
}

/// `s` without leading and trailing whitespace.
pub open spec fn trim(s: Seq<char>) -> Seq<char> {
    trim_back(trim_front(s))
}

proof fn lemma_trim_front_idx(s: Seq<char>, a: int)
    requires
        0 <= a <= s.len(),
        forall|j: int| 0 <= j < a ==> is_ws(s[j]),
        a == s.len() || !is_ws(s[a]),
    ensures
        trim_front(s) == s.skip(a),
    decreases a,
{
    if a == 0 {
        assert(s.skip(0) =~= s);
    } else {
        assert(is_ws(s[0]));
        lemma_trim_front_idx(s.drop_first(), a - 1);
        assert(s.drop_first().skip(a - 1) =~= s.skip(a));
    }
}

proof fn lemma_trim_back_idx(s: Seq<char>, b: int)
    requires
        0 <= b <= s.len(),
        forall|j: int| s.len() - b <= j < s.len() ==> is_ws(s[j]),
        b == s.len() || !is_ws(s[s.len() - b - 1]),
    ensures
        trim_back(s) == s.take(s.len() - b),
    decreases b,
{
    if b == 0 {
        assert(s.take(s.len() as int) =~= s);
    } else {
        assert(is_ws(s.last()));
        lemma_trim_back_idx(s.drop_last(), b - 1);
        assert(s.drop_last().take(s.len() - b) =~= s.take(s.len() - b));
    }
}

/// Whether `c` is ASCII whitespace.
fn is_ws_char(c: char) -> (r: bool)
    ensures
        r == is_ws(c),
{
    c == ' ' || c == '\t' || c == '\r'
}

/// Removes leading and trailing ASCII whitespace.
pub fn trim_str(s: &str) -> (r: String)
    ensures
        r@ == trim(s@),
{
    let n = s.unicode_len();
    let mut a: usize = 0;
    while a < n && is_ws_char(s.get_char(a))
        invariant
            n == s@.len(),
            a <= n,
            forall|j: int| 0 <= j < a ==> is_ws(s@[j]),
        decreases n - a,
    {
        a = a + 1;
    }
    proof {
        lemma_trim_front_idx(s@, a as int);
    }
    let mut b: usize = n;
    while b > a && is_ws_char(s.get_char(b - 1))
        invariant
            n == s@.len(),
            a <= b <= n,
            forall|j: int| b <= j < n ==> is_ws(s@[j]),
        decreases b,
    {
        b = b - 1;
    }
    proof {
        let t = s@.skip(a as int);
        assert(forall|j: int| t.len() - (n - b) <= j < t.len() ==> is_ws(t[j]));
        if b > a {
            assert(t[t.len() - (n - b) - 1] == s@[b - 1]);
        }
        lemma_trim_back_idx(t, n - b as int);
        assert(t.take(t.len() - (n - b)) =~= s@.subrange(a as int, b as int));
    }
    let sub = s.substring_char(a, b);
    sub.to_owned()
}

/// `s` split at every newline; the separators are not part of the lines, and
/// a trailing newline yields a final empty line.
pub open spec fn split_lines(s: Seq<char>) -> Seq<Seq<char>>
    decreases s.len(),
{
    if s.len() == 0 {
        seq![Seq::<char>::empty()]
    } else if s[0] == '\n' {
        seq![Seq::<char>::empty()] + split_lines(s.drop_first())
    } else {
        let rest = split_lines(s.drop_first());
        seq![seq![s[0]] + rest[0]] + rest.drop_first()
    }
}

pub proof fn lemma_split_lines_len(s: Seq<char>)
    ensures
        split_lines(s).len() >= 1,
    decreases s.len(),
{
    if s.len() > 0 {
        lemma_split_lines_len(s.drop_first());
    }
}

/// Splitting begins with everything up to the first newline as the first line.
pub proof fn lemma_split_lines_step(s: Seq<char>, j: int)
    requires
        0 <= j <= s.len(),
        forall|k: int| 0 <= k < j ==> s[k] != '\n',
        j == s.len() || s[j] == '\n',
    ensures
        j == s.len() ==> split_lines(s) == seq![s],
        j < s.len() ==> split_lines(s) == seq![s.take(j)] + split_lines(s.skip(j + 1)),
    decreases j,
{
    if j == 0 {
        if s.len() == 0 {
            assert(s =~= Seq::<char>::empty());
            assert(split_lines(s) == seq![Seq::<char>::empty()]);
            assert(split_lines(s) =~= seq![s]);
        } else {
            assert(s[0] == '\n');
            assert(s.take(0) =~= Seq::<char>::empty());
            assert(s.skip(1) =~= s.drop_first());
            assert(split_lines(s) =~= seq![s.take(0)] + split_lines(s.skip(1)));
        }
    } else {
        assert(s[0] != '\n');
        let d = s.drop_first();
        lemma_split_lines_len(d);
        lemma_split_lines_step(d, j - 1);
        let rest = split_lines(d);
        if j == s.len() {
            assert(rest == seq![d]);
            assert(seq![s[0]] + rest[0] =~= s);
            assert(split_lines(s) =~= seq![s]);
        } else {
            assert(rest == seq![d.take(j - 1)] + split_lines(d.skip(j)));
            assert(seq![s[0]] + rest[0] =~= s.take(j));
            assert(rest.drop_first() =~= split_lines(d.skip(j)));
            assert(d.skip(j) =~= s.skip(j + 1));
            assert(split_lines(s) =~= seq![s.take(j)] + split_lines(s.skip(j + 1)));
        }
    }
}

/// The lines of `s`, split at newlines.
pub fn lines_of(s: &str) -> (r: Vec<String>)
    ensures
        r@.map_values(|t: String| t@) == split_lines(s@),
{
    let n = s.unicode_len();
    let mut out: Vec<String> = Vec::new();
    let mut start: usize = 0;
    proof {
        assert(s@.skip(0) =~= s@);
        assert(out@.map_values(|t: String| t@) =~= Seq::<Seq<char>>::empty());
        assert(Seq::<Seq<char>>::empty() + split_lines(s@) =~= split_lines(s@));
    }
    loop
        invariant
            n == s@.len(),
            start <= n,
            split_lines(s@) == out@.map_values(|t: String| t@) + split_lines(s@.skip(start as int)),
        decreases n - start + 1,
    {
        let ghost tail = s@.skip(start as int);
        let mut j: usize = start;
        while j < n && s.get_char(j) != '\n'
            invariant
                n == s@.len(),
                start <= j <= n,
                forall|k: int| start <= k < j ==> s@[k] != '\n',
            decreases n - j,
        {
            j = j + 1;
        }
        proof {
            assert(forall|k: int| 0 <= k < j - start ==> tail[k] != '\n');
            if j < n {
                assert(tail[j - start] == '\n');
            }
            lemma_split_lines_step(tail, j - start as int);
            assert(tail.take(j - start as int) =~= s@.subrange(start as int, j as int));
        }
        let line = s.substring_char(start, j).to_owned();
        out.push(line);
        if j == n {
            proof {
                assert(out@.map_values(|t: String| t@) =~= out@.drop_last().map_values(
                    |t: String| t@,
                ) + seq![tail]);
                assert(split_lines(s@) =~= out@.map_values(|t: String| t@));
            }
            return out;
        }
        proof {
            assert(tail.skip(j - start + 1) =~= s@.skip(j + 1));
            assert(out@.map_values(|t: String| t@) =~= out@.drop_last().map_values(|t: String| t@)
                + seq![tail.take(j - start as int)]);
            assert(split_lines(s@) =~= out@.map_values(|t: String| t@) + split_lines(
                s@.skip(j + 1),
            ));
        }
        start = j + 1;
    }
}

/// The items joined with a comma and a space between neighbours.
pub open spec fn join_comma(items: Seq<Seq<char>>) -> Seq<char>
    decreases items.len(),
{
    if items.len() == 0 {
        Seq::empty()
    } else if items.len() == 1 {
        items[0]
    } else {
        join_comma(items.drop_last()) + ", "@ + items.last()
    }
}

/// Joins the names with `", "` between neighbours, as the aggregated error
/// reports list offending interfaces.
pub fn join_names(items: &Vec<String>) -> (r: String)
    ensures
        r@ == join_comma(items@.map_values(|t: String| t@)),
{
    let ghost views = items@.map_values(|t: String| t@);
    let mut out = String::new();
    let mut i: usize = 0;
    while i < items.len()
        invariant
            views == items@.map_values(|t: String| t@),
            i <= items@.len(),
            out@ == join_comma(views.take(i as int)),
        decreases items@.len() - i,
    {
        if i > 0 {
            out.append(", ");
        }
        out.append(items[i].as_str());
        proof {
            let pre = views.take(i + 1 as int);
            assert(pre.drop_last() =~= views.take(i as int));
            assert(pre.last() == views[i as int]);
            if i == 0 {
                assert(out@ =~= join_comma(pre));
            } else {
                assert(out@ =~= join_comma(pre));
            }
        }
        i = i + 1;
    }
    proof {
        assert(views.take(items@.len() as int) =~= views);
    }
    out
}

} // verus!
