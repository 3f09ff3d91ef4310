//! Commit ids and file paths as the views name them: a commit id is a hex
//! string that jj-lib decodes into the id's bytes, and a file path is a
//! repository path in jj-lib's internal form.

use vstd::prelude::*;
use vstd::utf8::encode_utf8;

verus! {

/// The value of a hex digit, upper or lower case.
pub open spec fn hex_value(b: u8) -> Option<int> {
    if 48 <= b <= 57 {
        Some(b - 48)
    } else if 97 <= b <= 102 {
        Some(b - 97 + 10)
    } else if 65 <= b <= 70 {
        Some(b - 65 + 10)
    } else {
        None
    }
}

/// Whether `s` is a whole number of bytes written in hex digits.
pub open spec fn is_hex_text(s: Seq<u8>) -> bool {
    &&& s.len() % 2 == 0
    &&& forall|i: int| 0 <= i < s.len() ==> #[trigger] hex_value(s[i]) is Some
}

/// The bytes that a hex text stands for, two digits each, high digit first.
pub open spec fn hex_bytes(s: Seq<u8>) -> Seq<u8> {
    Seq::new(
        (s.len() / 2) as nat,
        |k: int| (hex_value(s[2 * k])->0 * 16 + hex_value(s[2 * k + 1])->0) as u8,
    )
}

/// `jj_lib::backend::CommitId::try_from_hex`, taken as the id's bytes. The
/// source decodes with `hex_util::decode_hex`: `None` for an odd length or a
/// byte that is not a hex digit (either case), else each pair of digits as one
/// byte, high digit first.
#[verifier::external_body]
fn decode_commit_id(hex: &str) -> (res: Option<Vec<u8>>)
    ensures
        match res {
            Some(b) => is_hex_text(encode_utf8(hex@)) && b@ == hex_bytes(encode_utf8(hex@)),
            None => !is_hex_text(encode_utf8(hex@)),
        },
{
    match jj_lib::backend::CommitId::try_from_hex(hex) {
        Some(id) => Some(jj_lib::object_id::ObjectId::to_bytes(&id)),
        None => None,
    }
}

/// The bytes of the commit whose id is written `commit_id`, or the error that
/// loading files and diffs reports for an id that is not hex.
pub fn parse_commit_id(commit_id: &str) -> (res: Result<Vec<u8>, String>)
    ensures
        is_hex_text(encode_utf8(commit_id@)) ==> (res matches Ok(b) && b@ == hex_bytes(
            encode_utf8(commit_id@),
        )),
        !is_hex_text(encode_utf8(commit_id@)) ==> (res matches Err(m) && m@
            == "Invalid commit ID hex"@),
{
    match decode_commit_id(commit_id) {
        Some(bytes) => Ok(bytes),
        None => Err(String::from_str("Invalid commit ID hex")),
    }
}

/// A repository path in jj-lib's internal form: it neither starts nor ends
/// with `/`, and no two `/` follow each other.
pub open spec fn valid_repo_path(p: Seq<char>) -> bool {
    &&& !(p.len() > 0 && p[0] == '/')
    &&& !(p.len() > 0 && p.last() == '/')
    &&& !exists|i: int| 0 <= i < p.len() - 1 && #[trigger] p[i] == '/' && p[i + 1] == '/'
}

/// Whether `jj_lib::repo_path::RepoPath::from_internal_string` accepts `path`;
/// its source checks `is_valid_repo_path_str`, the three conditions of
/// `valid_repo_path`.
#[verifier::external_body]
fn repo_path_accepted(path: &str) -> (res: bool)
    ensures
        res == valid_repo_path(path@),
{
    jj_lib::repo_path::RepoPath::from_internal_string(path).is_ok()
}

/// Checks a file path before its contents are read, with the error that
/// loading a diff reports for a path that is not a repository path.
pub fn check_file_path(path: &str) -> (res: Result<(), String>)
    ensures
        valid_repo_path(path@) ==> res is Ok,
        !valid_repo_path(path@) ==> (res matches Err(m) && m@ == "Invalid file path"@),
{
    if repo_path_accepted(path) {
        Ok(())
    } else {
        Err(String::from_str("Invalid file path"))
    }
}

} // verus!
