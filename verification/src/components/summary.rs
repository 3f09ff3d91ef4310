//! The commit summary: messages, and the figures and texts it shows.

use vstd::prelude::*;
use vstd::utf8::{encode_utf8, is_char_boundary};

use crate::components::description_editor;
use crate::path_set::PathSet;
use crate::repo::{diff_views, ChangeKind, DiffLineView, FileChange, FileDiff};
use crate::text::{decimal, decimal_string, is_blank, trimmed};

verus! {

/// Messages for summary interactions.
#[derive(Debug, Clone)]
pub enum Message {
    ToggleFile(String),
    CollapseAll,
    ExpandAll,
    StartEditDescription,
    DescriptionEditor(description_editor::Message),
}

/// The number of the first `n` files whose change is of kind `k`.
pub open spec fn count_kind(files: Seq<FileChange>, k: ChangeKind, n: nat) -> nat
    decreases n,
{
    if n == 0 {
        0
    } else {
        count_kind(files, k, (n - 1) as nat) + if files[n - 1].kind == k {
            1nat
        } else {
            0nat
        }
    }
}

proof fn lemma_count_kind_bound(files: Seq<FileChange>, k: ChangeKind, n: nat)
    ensures
        count_kind(files, k, n) <= n,
    decreases n,
{
    if n > 0 {
        lemma_count_kind_bound(files, k, (n - 1) as nat);
    }
}

/// How many files were added, modified and deleted.
#[derive(Debug, Clone, Copy, PartialEq, Eq, Structural)]
pub struct FileCounts {
    pub added: usize,
    pub modified: usize,
    pub deleted: usize,
}

/// Counts the changed files by kind of change.
pub fn file_change_counts(files: &Vec<FileChange>) -> (res: FileCounts)
    ensures
        res.added == count_kind(files@, ChangeKind::Added, files@.len()),
        res.modified == count_kind(files@, ChangeKind::Modified, files@.len()),
        res.deleted == count_kind(files@, ChangeKind::Deleted, files@.len()),
{
    let mut added: usize = 0;
    let mut modified: usize = 0;
    let mut deleted: usize = 0;
    let mut i: usize = 0;
    while i < files.len()
        invariant
            i <= files@.len(),
            added == count_kind(files@, ChangeKind::Added, i as nat),
            modified == count_kind(files@, ChangeKind::Modified, i as nat),
            deleted == count_kind(files@, ChangeKind::Deleted, i as nat),
        decreases files@.len() - i,
    {
        proof {
            lemma_count_kind_bound(files@, ChangeKind::Added, i as nat);
            lemma_count_kind_bound(files@, ChangeKind::Modified, i as nat);
            lemma_count_kind_bound(files@, ChangeKind::Deleted, i as nat);
        }
        match files[i].kind {
            ChangeKind::Added => added = added + 1,
            ChangeKind::Modified => modified = modified + 1,
            ChangeKind::Deleted => deleted = deleted + 1,
        }
        i = i + 1;
    }
    FileCounts { added, modified, deleted }
}

/// The number of `Added` and of `Removed` lines among the first `n` lines.
pub open spec fn count_changes(lines: Seq<DiffLineView>, n: nat) -> (nat, nat)
    decreases n,
{
    if n == 0 {
        (0, 0)
    } else {
        let (a, r) = count_changes(lines, (n - 1) as nat);
        match lines[n - 1] {
            DiffLineView::Added(_) => (a + 1, r),
            DiffLineView::Removed(_) => (a, r + 1),
            _ => (a, r),
        }
    }
}

proof fn lemma_count_changes_bound(lines: Seq<DiffLineView>, n: nat)
    ensures
        count_changes(lines, n).0 + count_changes(lines, n).1 <= n,
    decreases n,
{
    if n > 0 {
        lemma_count_changes_bound(lines, (n - 1) as nat);
    }
}

/// The number of added lines among `lines`.
pub open spec fn added_lines(lines: Seq<DiffLineView>) -> nat {
    lines.filter(|l: DiffLineView| l is Added).len()
}

/// The number of removed lines among `lines`.
pub open spec fn removed_lines(lines: Seq<DiffLineView>) -> nat {
    lines.filter(|l: DiffLineView| l is Removed).len()
}

/// The first `n` lines hold `count_changes(lines, n).0` added lines and
/// `count_changes(lines, n).1` removed lines, whatever the rest of each line.
pub proof fn lemma_count_changes_counts(lines: Seq<DiffLineView>, n: nat)
    requires
        n <= lines.len(),
    ensures
        count_changes(lines, n) == (added_lines(lines.take(n as int)), removed_lines(
            lines.take(n as int),
        )),
    decreases n,
{
    if n == 0 {
        assert(lines.take(0) =~= Seq::<DiffLineView>::empty());
    } else {
        lemma_count_changes_counts(lines, (n - 1) as nat);
        let t = lines.take(n as int);
        let s = lines.take(n - 1);
        assert(t =~= s.push(lines[n - 1]));
        s.lemma_filter_push(lines[n - 1], |l: DiffLineView| l is Added);
        s.lemma_filter_push(lines[n - 1], |l: DiffLineView| l is Removed);
    }
}

/// The number of added and of removed lines of a file's diff.
pub fn diff_line_counts(diff: &FileDiff) -> (res: (usize, usize))
    ensures
        res.0 == count_changes(diff_views(diff.lines@), diff.lines@.len()).0,
        res.1 == count_changes(diff_views(diff.lines@), diff.lines@.len()).1,
        res.0 == added_lines(diff_views(diff.lines@)),
        res.1 == removed_lines(diff_views(diff.lines@)),
{
    proof {
        lemma_count_changes_counts(diff_views(diff.lines@), diff.lines@.len());
        assert(diff_views(diff.lines@).take(diff.lines@.len() as int) =~= diff_views(diff.lines@));
    }
    let ghost lv = diff_views(diff.lines@);
    let mut adds: usize = 0;
    let mut removes: usize = 0;
    let mut i: usize = 0;
    while i < diff.lines.len()
        invariant
            lv == diff_views(diff.lines@),
            i <= diff.lines@.len(),
            (adds as nat, removes as nat) == count_changes(lv, i as nat),
        decreases diff.lines@.len() - i,
    {
        proof {
            lemma_count_changes_bound(lv, i as nat);
            assert(lv[i as int] == diff.lines@[i as int]@);
        }
        match &diff.lines[i] {
            crate::repo::DiffLine::Added(_) => adds = adds + 1,
            crate::repo::DiffLine::Removed(_) => removes = removes + 1,
            _ => {},
        }
        i = i + 1;
    }
    (adds, removes)
}

/// The toggle the files header offers: collapse when any file is expanded,
/// expand otherwise.
pub fn expand_toggle(expanded_files: &PathSet) -> (res: Message)
    ensures
        if expanded_files@ == Set::<Seq<char>>::empty() {
            res is ExpandAll
        } else {
            res is CollapseAll
        },
{
    if expanded_files.is_empty() {
        Message::ExpandAll
    } else {
        Message::CollapseAll
    }
}

/// The text shown for a description: the placeholder when it is blank.
pub open spec fn described(description: Seq<char>) -> Seq<char> {
    if trimmed(description).len() == 0 {
        "(no description)"@
    } else {
        description
    }
}

/// The description as the summary shows it.
pub fn description_text(description: &str) -> (res: String)
    ensures
        res@ == described(description@),
{
    if is_blank(description) {
        String::from_str("(no description)")
    } else {
        description.to_owned()
    }
}

/// The shortened form of an id: its first `n` bytes, or all of it.
pub open spec fn short_id_bytes(id: Seq<char>, n: int) -> Seq<u8> {
    let b = encode_utf8(id);
    if b.len() <= n {
        b
    } else {
        b.subrange(0, n)
    }
}

/// The first `n` bytes of an id (`&id[..n.min(id.len())]`); the cut must fall
/// between characters.
pub fn short_id(id: &str, n: usize) -> (res: String)
    requires
        is_char_boundary(encode_utf8(id@), if encode_utf8(id@).len() <= n {
            encode_utf8(id@).len() as int
        } else {
            n as int
        }),
    ensures
        encode_utf8(res@) == short_id_bytes(id@, n as int),
{
    let len = id.as_bytes().len();
    let cut = if n < len {
        n
    } else {
        len
    };
    let (head, _tail) = id.split_at(cut);
    let res = head.to_owned();
    proof {
        assert(encode_utf8(id@).subrange(0, len as int) =~= encode_utf8(id@));
    }
    res
}

/// The heading of the files of a commit: how many there are, and how many
/// were added, modified and deleted.
pub open spec fn files_header_text(total: nat, counts: FileCounts) -> Seq<char> {
    decimal(total) + (if total == 1 {
        " file: "@
    } else {
        " files: "@
    }) + decimal(counts.added as nat) + " added, "@ + decimal(counts.modified as nat)
        + " modified, "@ + decimal(counts.deleted as nat) + " deleted"@
}

/// The heading of the files of a commit, for example
/// `3 files: 1 added, 2 modified, 0 deleted`.
pub fn files_header(total: usize, counts: FileCounts) -> (res: String)
    ensures
        res@ == files_header_text(total as nat, counts),
{
    let res = decimal_string(total);
    let res = if total == 1 {
        res.concat(" file: ")
    } else {
        res.concat(" files: ")
    };
    let res = res.concat(decimal_string(counts.added).as_str()).concat(" added, ");
    let res = res.concat(decimal_string(counts.modified).as_str()).concat(" modified, ");
    res.concat(decimal_string(counts.deleted).as_str()).concat(" deleted")
}

} // verus!
