//! What the repository worker computes from what it read: the diffs that
//! could be built, and the bookmarks that point at a commit.

use vstd::prelude::*;

use crate::components::summary::{
    added_lines, count_changes, diff_line_counts, lemma_count_changes_counts, removed_lines,
};
use crate::repo::{diff_views, texts, FileDiff, FileStats};

verus! {

/// The diffs that were built, in order, passing over the files whose diff
/// could not be read.
pub open spec fn loaded_diffs(results: Seq<Option<FileDiff>>) -> Seq<FileDiff>
    decreases results.len(),
{
    if results.len() == 0 {
        Seq::empty()
    } else {
        let prev = loaded_diffs(results.drop_last());
        match results.last() {
            Some(d) => prev.push(d),
            None => prev,
        }
    }
}

/// Keeps the diffs that were built, in order, and passes over the failures.
pub fn collect_diffs(results: Vec<Option<FileDiff>>) -> (res: Vec<FileDiff>)
    ensures
        res@ == loaded_diffs(results@),
{
    let ghost all = results@;
    let mut rest = results;
    let mut rev: Vec<FileDiff> = Vec::new();
    // Take the results from the back, then put the kept ones back in order.
    while rest.len() > 0
        invariant
            rest@.len() <= all.len(),
            rest@ == all.take(rest@.len() as int),
            loaded_diffs(all) == loaded_diffs(rest@) + rev@.reverse(),
        decreases rest@.len(),
    {
        let ghost before = rest@;
        let ghost rev_before = rev@;
        let last = rest.pop();
        proof {
            assert(rest@ =~= before.drop_last());
            assert(rest@ =~= all.take(rest@.len() as int));
        }
        match last {
            Some(Some(d)) => {
                rev.push(d);
                proof {
                    assert(rev@.reverse() =~= seq![rev@.last()] + rev_before.reverse());
                    assert(loaded_diffs(before) == loaded_diffs(rest@).push(rev@.last()));
                    assert(loaded_diffs(rest@).push(rev@.last()) + rev_before.reverse()
                        =~= loaded_diffs(rest@) + rev@.reverse());
                }
            },
            _ => {},
        }
    }
    proof {
        assert(loaded_diffs(rest@) =~= Seq::<FileDiff>::empty());
        assert(loaded_diffs(all) =~= rev@.reverse());
    }
    let mut res: Vec<FileDiff> = Vec::new();
    let ghost target = rev@.reverse();
    while rev.len() > 0
        invariant
            res@ + rev@.reverse() == target,
        decreases rev@.len(),
    {
        let ghost rb = rev@;
        match rev.pop() {
            Some(d) => {
                let ghost rb_res = res@;
                res.push(d);
                proof {
                    assert(rb.reverse() =~= seq![d] + rev@.reverse());
                    assert(res@ + rev@.reverse() =~= rb_res + rb.reverse());
                }
            },
            None => {},
        }
    }
    proof {
        assert(res@ + Seq::<FileDiff>::empty().reverse() =~= res@);
        assert(rev@.reverse() =~= Seq::<FileDiff>::empty());
    }
    res
}

/// The names of the bookmarks among `bookmarks` (each with the commits it
/// points at) that point at `commit_id`, in order.
pub open spec fn bookmarks_at(bookmarks: Seq<(Seq<char>, Seq<Seq<char>>)>, commit_id: Seq<char>) -> Seq<
    Seq<char>,
>
    decreases bookmarks.len(),
{
    if bookmarks.len() == 0 {
        Seq::empty()
    } else {
        let prev = bookmarks_at(bookmarks.drop_last(), commit_id);
        if bookmarks.last().1.contains(commit_id) {
            prev.push(bookmarks.last().0)
        } else {
            prev
        }
    }
}

/// A bookmark by its name and the ids of the commits it points at.
pub open spec fn bookmark_view(b: (String, Vec<String>)) -> (Seq<char>, Seq<Seq<char>>) {
    (b.0@, texts(b.1@))
}

/// The names of the bookmarks that point at `commit_id`.
pub fn bookmarks_pointing_at(bookmarks: &Vec<(String, Vec<String>)>, commit_id: &String) -> (res:
    Vec<String>)
    ensures
        texts(res@) == bookmarks_at(bookmarks@.map_values(|b: (String, Vec<String>)| bookmark_view(b)), commit_id@),
{
    let ghost bv = bookmarks@.map_values(|b: (String, Vec<String>)| bookmark_view(b));
    let mut res: Vec<String> = Vec::new();
    let mut i: usize = 0;
    while i < bookmarks.len()
        invariant
            bv == bookmarks@.map_values(|b: (String, Vec<String>)| bookmark_view(b)),
            i <= bookmarks@.len(),
            texts(res@) == bookmarks_at(bv.take(i as int), commit_id@),
        decreases bookmarks@.len() - i,
    {
        let targets = &bookmarks[i].1;
        let mut hit = false;
        let mut k: usize = 0;
        while k < targets.len()
            invariant
                k <= targets@.len(),
                hit == texts(targets@).take(k as int).contains(commit_id@),
            decreases targets@.len() - k,
        {
            let ghost t = texts(targets@);
            proof {
                assert(t.take(k + 1) =~= t.take(k as int).push(targets@[k as int]@));
                let t1 = t.take(k + 1);
                let t0 = t.take(k as int);
                if t1.contains(commit_id@) {
                    let q = choose|q: int| 0 <= q < t1.len() && #[trigger] t1[q] == commit_id@;
                    if q < k {
                        assert(t0[q] == commit_id@);
                    }
                }
                if t0.contains(commit_id@) {
                    let q = choose|q: int| 0 <= q < t0.len() && #[trigger] t0[q] == commit_id@;
                    assert(t1[q] == commit_id@);
                }
                assert(t.take(k + 1)[k as int] == targets@[k as int]@);
            }
            if targets[k] == *commit_id {
                hit = true;
            }
            k = k + 1;
        }
        proof {
            assert(texts(targets@).take(targets@.len() as int) =~= texts(targets@));
            assert(bv.take(i + 1).drop_last() =~= bv.take(i as int));
            assert(bv.take(i + 1).last() == bv[i as int]);
            assert(bv[i as int] == bookmark_view(bookmarks@[i as int]));
        }
        if hit {
            let ghost before = texts(res@);
            res.push(bookmarks[i].0.clone());
            proof {
                assert(texts(res@) =~= before.push(bookmarks@[i as int].0@));
            }
        }
        i = i + 1;
    }
    proof {
        assert(bv.take(bookmarks@.len() as int) =~= bv);
    }
    res
}

/// The added and removed lines of the first `n` diffs, all together.
pub open spec fn total_changes(diffs: Seq<FileDiff>, n: nat) -> (nat, nat)
    decreases n,
{
    if n == 0 {
        (0, 0)
    } else {
        let (a, r) = total_changes(diffs, (n - 1) as nat);
        let (da, dr) = count_changes(diff_views(diffs[n - 1].lines@), diffs[n - 1].lines@.len());
        (a + da, r + dr)
    }
}

proof fn lemma_total_prefix(diffs: Seq<FileDiff>, d: FileDiff, n: nat)
    requires
        n <= diffs.len(),
    ensures
        total_changes(diffs.push(d), n) == total_changes(diffs, n),
    decreases n,
{
    if n > 0 {
        lemma_total_prefix(diffs, d, (n - 1) as nat);
        assert(diffs.push(d)[n - 1] == diffs[n - 1]);
    }
}

/// The statistics of a commit add up over its files: with one more diff, the
/// added and removed lines grow by that diff's added and removed lines,
/// whatever kind of change the file is; with no diffs they are zero.
pub proof fn lemma_changes_add_up(diffs: Seq<FileDiff>, d: FileDiff)
    ensures
        total_changes(Seq::<FileDiff>::empty(), 0) == (0nat, 0nat),
        total_changes(diffs.push(d), diffs.len() + 1) == (
            total_changes(diffs, diffs.len()).0 + added_lines(diff_views(d.lines@)),
            total_changes(diffs, diffs.len()).1 + removed_lines(diff_views(d.lines@)),
        ),
{
    lemma_total_prefix(diffs, d, diffs.len());
    lemma_count_changes_counts(diff_views(d.lines@), d.lines@.len());
    assert(diff_views(d.lines@).take(d.lines@.len() as int) =~= diff_views(d.lines@));
    assert(diffs.push(d)[diffs.len() as int] == d);
}

/// A count that stops at `usize::MAX`.
pub open spec fn capped(n: nat) -> usize {
    if n < usize::MAX {
        n as usize
    } else {
        usize::MAX
    }
}

/// The statistics of a commit: how many files it changes, and how many lines
/// its diffs add and remove in all (each count stops at `usize::MAX`).
pub fn commit_stats(file_count: usize, diffs: &Vec<FileDiff>) -> (res: FileStats)
    ensures
        res.file_count == file_count,
        res.lines_added == capped(total_changes(diffs@, diffs@.len()).0),
        res.lines_removed == capped(total_changes(diffs@, diffs@.len()).1),
{
    let mut added: usize = 0;
    let mut removed: usize = 0;
    let mut i: usize = 0;
    while i < diffs.len()
        invariant
            i <= diffs@.len(),
            added == capped(total_changes(diffs@, i as nat).0),
            removed == capped(total_changes(diffs@, i as nat).1),
        decreases diffs@.len() - i,
    {
        let (a, r) = diff_line_counts(&diffs[i]);
        added = added.saturating_add(a);
        removed = removed.saturating_add(r);
        i = i + 1;
    }
    FileStats { file_count, lines_added: added, lines_removed: removed }
}

} // verus!
