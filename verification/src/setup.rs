//! What `init` and completion setup write into files that may already
//! exist: a line is added only when it is not there yet.

use vstd::prelude::*;
use vstd::string::*;

use crate::strs::{chars_of, contains, contains_exec, owned, push_str, trim};
use crate::text::split_on;

verus! {

/// The `.gitattributes` line that lets git merge logs from two machines.
pub const GITATTRIBUTES_LINE: &'static str = "*.log merge=union";

/// `text` with `line` appended on a line of its own.
pub open spec fn appended(text: Seq<char>, line: Seq<char>) -> Seq<char> {
    (if text.len() > 0 && text.last() != '\n' {
        text.push('\n')
    } else {
        text
    }) + line + seq!['\n']
}

/// Does some line of `text`, trimmed, read `line`?
pub open spec fn has_line(text: Seq<char>, line: Seq<char>) -> bool {
    exists|i: int| 0 <= i < split_on(text, seq!['\n']).len() && trim(#[trigger] split_on(text, seq!['\n'])[i]) == line
}

/// The new `.gitattributes` text, or `None` when the merge line is there.
pub fn with_union_merge(current: &str) -> (r: Option<String>)
    ensures
        has_line(current@, GITATTRIBUTES_LINE@) ==> r is None,
        !has_line(current@, GITATTRIBUTES_LINE@) ==> (r matches Some(t) && t@ == appended(
            current@,
            GITATTRIBUTES_LINE@,
        )),
{
    let v = chars_of(current);
    let nl: Vec<char> = vec!['\n'];
    assert(nl@ == seq!['\n']);
    let lines = crate::text::split_on_exec(v.as_slice(), nl.as_slice());
    let ghost lv = lines@.map_values(|w: Vec<char>| w@);
    let mut i: usize = 0;
    while i < lines.len()
        invariant
            i <= lines@.len(),
            lv == lines@.map_values(|w: Vec<char>| w@),
            lv == split_on(current@, seq!['\n']),
            forall|j: int| 0 <= j < i ==> trim(#[trigger] lv[j]) != GITATTRIBUTES_LINE@,
        decreases lines@.len() - i,
    {
        let t = crate::strs::trim_chars(lines[i].as_slice());
        let ts = crate::strs::string_of(t.as_slice());
        assert(lv[i as int] == lines@[i as int]@);
        if crate::strs::str_eq(ts.as_str(), GITATTRIBUTES_LINE) {
            return None;
        }
        i = i + 1;
    }
    let mut text = owned(current);
    if v.len() > 0 && v[v.len() - 1] != '\n' {
        crate::strs::push_char(&mut text, '\n');
    }
    push_str(&mut text, GITATTRIBUTES_LINE);
    crate::strs::push_char(&mut text, '\n');
    Some(text)
}

/// A shell config with the completion hook added under a comment, or
/// `None` when it already mentions `reword completions`.
pub open spec fn spec_with_hook(current: Seq<char>, line: Seq<char>) -> Option<Seq<char>> {
    if contains(current, "reword completions"@) {
        None
    } else {
        let t1 = if current.len() > 0 && current.last() != '\n' {
            current.push('\n')
        } else {
            current
        };
        let t2 = if t1.len() > 0 {
            t1.push('\n')
        } else {
            t1
        };
        Some(t2 + "# reword tab completion\n"@ + line)
    }
}

pub fn with_hook(current: &str, line: &str) -> (r: Option<String>)
    ensures
        match spec_with_hook(current@, line@) {
            None => r is None,
            Some(t) => r matches Some(s) && s@ == t,
        },
{
    let v = chars_of(current);
    let pat = chars_of("reword completions");
    if contains_exec(v.as_slice(), pat.as_slice()) {
        return None;
    }
    let mut text = owned(current);
    if v.len() > 0 && v[v.len() - 1] != '\n' {
        crate::strs::push_char(&mut text, '\n');
    }
    if text.as_str().unicode_len() > 0 {
        crate::strs::push_char(&mut text, '\n');
    }
    push_str(&mut text, "# reword tab completion\n");
    push_str(&mut text, line);
    Some(text)
}

} // verus!
