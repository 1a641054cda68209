//! Deployment of connection-profile files: target paths and the textual
//! rename a profile undergoes when its interface got a new name.

use vstd::prelude::*;
use vstd::string::{StrSliceExecFns, StringExecFns};
use crate::types::RenameMap;
use crate::strutil::{
    dot_pred, is_dot_c, last_where, lemma_last_where_at, replace_all, replace_seq, str_eq,
};

verus! {

/// The fixed filename extension of connection-profile files.
pub open spec fn profile_ext() -> Seq<char> {
    "nmconnection"@
}

/// The path of the profile file for `filename` under `dir`: the extension is
/// appended literally, so a dot inside `filename` (as in `eth0.1365`) is kept.
pub open spec fn keyfile_path_spec(dir: Seq<char>, filename: Seq<char>) -> Seq<char> {
    dir + "/"@ + filename + "."@ + profile_ext()
}

/// Builds the path of the connection-profile file for `filename` under
/// `dir`, appending the profile extension after a literal dot. `None` exactly
/// when `dir` or `filename` is empty. The extension is appended, never
/// substituted, because interface names may themselves contain dots.
pub fn keyfile_path(dir: &str, filename: &str) -> (r: Option<String>)
    ensures
        match r {
            Some(p) => dir@.len() > 0 && filename@.len() > 0 && p@ == keyfile_path_spec(
                dir@,
                filename@,
            ),
            None => dir@.len() == 0 || filename@.len() == 0,
        },
{
    if dir.is_empty() || filename.is_empty() {
        return None;
    }
    let mut out = dir.to_owned();
    out.append("/");
    out.append(filename);
    out.append(".");
    out.append("nmconnection");
    Some(out)
}

/// The file name without the profile extension, when the name carries
/// exactly that extension; nothing otherwise. A dot that begins the name
/// opens no extension.
pub open spec fn connection_stem_of(name: Seq<char>) -> Option<Seq<char>> {
    let d = last_where(name, dot_pred());
    if d >= 1 && name.skip(d + 1) == profile_ext() {
        Some(name.take(d))
    } else {
        None
    }
}

/// The stem of a connection-profile file name: `Some` exactly for names of
/// the form `<stem>.<profile extension>` with a non-empty stem.
pub fn connection_file_stem(name: &str) -> (r: Option<String>)
    ensures
        match r {
            Some(stem) => connection_stem_of(name@) == Some(stem@),
            None => connection_stem_of(name@) is None,
        },
{
    let n = name.unicode_len();
    let mut end: usize = n;
    while end > 0 && !is_dot_c(name.get_char(end - 1))
        invariant
            n == name@.len(),
            end <= n,
            forall|j: int| end <= j < n ==> !(dot_pred()(name@[j])),
        decreases end,
    {
        end = end - 1;
    }
    proof {
        if end > 0 {
            assert((dot_pred())(name@[end - 1]));
        }
        lemma_last_where_at(name@, dot_pred(), end - 1);
    }
    if end < 2 {
        return None;
    }
    let suffix = name.substring_char(end, n);
    proof {
        assert(suffix@ =~= name@.skip(end as int));
    }
    if str_eq(suffix, "nmconnection") {
        let stem = name.substring_char(0, end - 1);
        proof {
            assert(stem@ =~= name@.take(end - 1));
        }
        Some(stem.to_owned())
    } else {
        None
    }
}

/// The name a profile file is deployed under: the locally observed name when
/// the rename map binds the interface's logical name, the logical name
/// itself otherwise.
pub open spec fn rendered_name(logical: Seq<char>, m: Map<Seq<char>, Seq<char>>) -> Seq<char> {
    if m.contains_key(logical) {
        m[logical]
    } else {
        logical
    }
}

/// The content a profile file is deployed with: every occurrence of the
/// logical name substituted by the locally observed name when the rename map
/// binds it, the content unchanged otherwise.
pub open spec fn rendered_text(
    logical: Seq<char>,
    m: Map<Seq<char>, Seq<char>>,
    content: Seq<char>,
) -> Seq<char> {
    if m.contains_key(logical) {
        replace_seq(content, logical, m[logical])
    } else {
        content
    }
}

/// The deployed filename (without extension) and content for one interface.
///
/// If the rename map binds the interface's logical name, the locally observed
/// name becomes the filename and every occurrence of the logical name inside
/// the content is substituted by it; otherwise filename and content are kept
/// unchanged. Name and content are functions of the arguments alone, so
/// deploying twice with the same inputs writes byte-identical files.
pub fn render_connection_file(logical_name: &str, map: &RenameMap, contents: &str) -> (r: (
    String,
    String,
))
    ensures
        r.0@ == rendered_name(logical_name@, map@),
        r.1@ == rendered_text(logical_name@, map@, contents@),
{
    match map.get(logical_name) {
        Some(local_name) => {
            let text = replace_all(contents, logical_name, local_name.as_str());
            (local_name.clone(), text)
        },
        None => (logical_name.to_owned(), contents.to_owned()),
    }
}

} // verus!
