//! Small lookups of the command line: telling a git remote from a local
//! directory, and finding the chunk that spans a line.
use vstd::prelude::*;

use crate::chunking::Chunk;
use crate::text::{
    chars_eq, contains, contains_str, ends_with, ends_with_str, starts_with, starts_with_str,
    str_to_chars,
};

verus! {

/// `path` names a git remote: an http(s), ssh or scp-style address, or a
/// URL ending in `.git`.
pub open spec fn git_url(path: Seq<char>) -> bool {
    ||| starts_with(path, "https://"@)
    ||| starts_with(path, "http://"@)
    ||| starts_with(path, "git@"@)
    ||| starts_with(path, "ssh://"@)
    ||| (ends_with(path, ".git"@) && contains(path, "://"@))
}

/// Whether `path` names a git remote rather than a local directory.
pub fn is_git_url(path: &str) -> (b: bool)
    ensures
        b == git_url(path@),
{
    let p = str_to_chars(path);
    starts_with_str(&p, "https://") || starts_with_str(&p, "http://") || starts_with_str(
        &p,
        "git@",
    ) || starts_with_str(&p, "ssh://") || (ends_with_str(&p, ".git") && contains_str(&p, "://"))
}

/// Chunk `c` is of the file `file_path` and spans line `line`.
pub open spec fn spans(c: Chunk, file_path: Seq<char>, line: int) -> bool {
    c.file_path@ == file_path && c.start_line <= line <= c.end_line
}

/// The first chunk of `file_path` that spans `line`.
pub fn resolve_chunk<'a>(chunks: &'a [Chunk], file_path: &str, line: usize) -> (r: Option<
    &'a Chunk,
>)
    ensures
        r matches Some(c) ==> exists|i: int|
            0 <= i < chunks@.len() && chunks@[i] == *c && spans(*c, file_path@, line as int) && (
            forall|j: int| 0 <= j < i ==> !spans(#[trigger] chunks@[j], file_path@, line as int)),
        r is None ==> forall|j: int|
            0 <= j < chunks@.len() ==> !spans(#[trigger] chunks@[j], file_path@, line as int),
{
    let target = str_to_chars(file_path);
    for i in 0..chunks.len()
        invariant
            target@ == file_path@,
            forall|j: int| 0 <= j < i ==> !spans(#[trigger] chunks@[j], file_path@, line as int),
    {
        let c = &chunks[i];
        if chars_eq(&str_to_chars(c.file_path.as_str()), &target) && c.start_line <= line && line
            <= c.end_line {
            return Some(c);
        }
    }
    None
}

} // verus!
