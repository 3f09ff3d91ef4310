//! The unified diff view: the line numbers shown in its gutter.

use vstd::prelude::*;

use crate::repo::{diff_views, DiffLine, DiffLineView};

verus! {

/// The line numbers shown beside one diff line: in the old file, in the new
/// file, or none (a hunk header shows none).
#[derive(Debug, Clone, Copy, PartialEq, Eq, Structural)]
pub struct GutterNumbers {
    pub old: Option<u32>,
    pub new: Option<u32>,
}

/// The old and new line counters after the first `n` lines: both start at 1;
/// a hunk header sets them to its start lines, a context line advances both,
/// an added line the new one and a removed line the old one.
pub open spec fn counters(lines: Seq<DiffLineView>, n: nat) -> (int, int)
    decreases n,
{
    if n == 0 {
        (1, 1)
    } else {
        let (o, w) = counters(lines, (n - 1) as nat);
        match lines[n - 1] {
            DiffLineView::Hunk { old_start, new_start, .. } => (old_start as int, new_start as int),
            DiffLineView::Context(_) => (o + 1, w + 1),
            DiffLineView::Added(_) => (o, w + 1),
            DiffLineView::Removed(_) => (o + 1, w),
        }
    }
}

/// The numbers shown beside line `k`.
pub open spec fn gutter_at(lines: Seq<DiffLineView>, k: int) -> GutterNumbers {
    let (o, w) = counters(lines, k as nat);
    match lines[k] {
        DiffLineView::Hunk { .. } => GutterNumbers { old: None, new: None },
        DiffLineView::Context(_) => GutterNumbers { old: Some(o as u32), new: Some(w as u32) },
        DiffLineView::Added(_) => GutterNumbers { old: None, new: Some(w as u32) },
        DiffLineView::Removed(_) => GutterNumbers { old: Some(o as u32), new: None },
    }
}

/// Numbering line `k` does not take a counter past `u32::MAX`.
pub open spec fn fits_at(lines: Seq<DiffLineView>, k: int) -> bool {
    let (o, w) = counters(lines, k as nat);
    match lines[k] {
        DiffLineView::Hunk { .. } => true,
        DiffLineView::Context(_) => o < u32::MAX && w < u32::MAX,
        DiffLineView::Added(_) => w < u32::MAX,
        DiffLineView::Removed(_) => o < u32::MAX,
    }
}

/// No counter goes past `u32::MAX` when the lines are numbered.
pub open spec fn counters_fit(lines: Seq<DiffLineView>) -> bool {
    forall|k: int| 0 <= k < lines.len() ==> #[trigger] fits_at(lines, k)
}

/// `a` is one more than `b`.
pub open spec fn one_more(a: Option<u32>, b: Option<u32>) -> bool {
    a matches Some(x) && b matches Some(y) && x == y + 1
}

/// How the gutter reads from one line to the next, whatever the lines say:
/// after a hunk header, the numbers are the hunk's start lines; a line that
/// is in the old file (unchanged or removed) after another such line is one
/// further on the old side; a line that is in the new file (unchanged or
/// added) after another such line is one further on the new side.
pub open spec fn gutter_step(
    prev_line: DiffLineView,
    line: DiffLineView,
    prev: GutterNumbers,
    cur: GutterNumbers,
) -> bool {
    &&& (prev_line matches DiffLineView::Hunk { old_start, .. } ==> ((line is Context
        || line is Removed) ==> cur.old == Some(old_start)))
    &&& (prev_line matches DiffLineView::Hunk { new_start, .. } ==> ((line is Context
        || line is Added) ==> cur.new == Some(new_start)))
    &&& ((prev_line is Context || prev_line is Removed) && (line is Context || line is Removed)
        ==> one_more(cur.old, prev.old))
    &&& ((prev_line is Context || prev_line is Added) && (line is Context || line is Added)
        ==> one_more(cur.new, prev.new))
}

/// Which sides a line's numbers are on: an unchanged line shows both, an
/// added line the new one, a removed line the old one, a hunk header none;
/// before any hunk header the first numbers are 1.
pub open spec fn gutter_shape(line: DiffLineView, g: GutterNumbers, first: bool) -> bool {
    &&& (g.old is Some <==> (line is Context || line is Removed))
    &&& (g.new is Some <==> (line is Context || line is Added))
    &&& (first && g.old is Some ==> g.old == Some(1u32))
    &&& (first && g.new is Some ==> g.new == Some(1u32))
}

proof fn lemma_counters_nonneg(lines: Seq<DiffLineView>, n: nat)
    requires
        n <= lines.len(),
    ensures
        counters(lines, n).0 >= 0,
        counters(lines, n).1 >= 0,
    decreases n,
{
    if n > 0 {
        lemma_counters_nonneg(lines, (n - 1) as nat);
    }
}

/// The gutter counts lines by their kind alone: the numbers beside a line
/// follow from those beside the line before it and the two lines' kinds, and
/// the first line is numbered from 1.
pub proof fn lemma_gutter_steps(lines: Seq<DiffLineView>, k: int)
    requires
        counters_fit(lines),
        0 <= k < lines.len(),
    ensures
        gutter_shape(lines[k], gutter_at(lines, k), k == 0),
        k > 0 ==> gutter_step(lines[k - 1], lines[k], gutter_at(lines, k - 1), gutter_at(lines, k)),
{
    lemma_counters_nonneg(lines, k as nat);
    if k > 0 {
        lemma_counters_nonneg(lines, (k - 1) as nat);
        assert(fits_at(lines, k - 1));
    }
}

/// A line that the old file has: an unchanged or a removed line.
pub open spec fn in_old(l: DiffLineView) -> bool {
    l is Context || l is Removed
}

/// A line that the new file has: an unchanged or an added line.
pub open spec fn in_new(l: DiffLineView) -> bool {
    l is Context || l is Added
}

/// How many of `lines` the old file has.
pub open spec fn old_count(lines: Seq<DiffLineView>) -> nat {
    lines.filter(|l: DiffLineView| in_old(l)).len()
}

/// How many of `lines` the new file has.
pub open spec fn new_count(lines: Seq<DiffLineView>) -> nat {
    lines.filter(|l: DiffLineView| in_new(l)).len()
}

/// No hunk header among `lines`.
pub open spec fn no_hunk(lines: Seq<DiffLineView>) -> bool {
    forall|i: int| 0 <= i < lines.len() ==> !(#[trigger] lines[i] is Hunk)
}

proof fn lemma_counters_run(lines: Seq<DiffLineView>, a: int, b: int)
    requires
        0 <= a <= b <= lines.len(),
        no_hunk(lines.subrange(a, b)),
    ensures
        counters(lines, b as nat).0 == counters(lines, a as nat).0 + old_count(lines.subrange(a, b)),
        counters(lines, b as nat).1 == counters(lines, a as nat).1 + new_count(lines.subrange(a, b)),
    decreases b - a,
{
    if b == a {
        assert(lines.subrange(a, b) =~= Seq::<DiffLineView>::empty());
    } else {
        let s = lines.subrange(a, b - 1);
        assert(lines.subrange(a, b) =~= s.push(lines[b - 1]));
        assert forall|i: int| 0 <= i < s.len() implies !(#[trigger] s[i] is Hunk) by {
            assert(s[i] == lines.subrange(a, b)[i]);
        }
        assert(!(lines.subrange(a, b)[b - 1 - a] is Hunk));
        lemma_counters_run(lines, a, b - 1);
        s.lemma_filter_push(lines[b - 1], |l: DiffLineView| in_old(l));
        s.lemma_filter_push(lines[b - 1], |l: DiffLineView| in_new(l));
    }
}

/// The gutter counts the lines of each file, whatever they say: the old
/// number beside a line is the number beside an earlier line of the old file,
/// or the start of an earlier hunk, or 1 before any hunk, plus how many lines
/// of the old file lie in between (no hunk header between them); the same for
/// the new number and the lines of the new file.
pub proof fn lemma_gutter_counts(lines: Seq<DiffLineView>, a: int, b: int)
    requires
        counters_fit(lines),
        0 <= a <= b < lines.len(),
    ensures
        in_old(lines[b]) && no_hunk(lines.subrange(0, b)) ==> gutter_at(lines, b).old == Some(
            (1 + old_count(lines.subrange(0, b))) as u32,
        ) && 1 + old_count(lines.subrange(0, b)) <= u32::MAX,
        in_new(lines[b]) && no_hunk(lines.subrange(0, b)) ==> gutter_at(lines, b).new == Some(
            (1 + new_count(lines.subrange(0, b))) as u32,
        ) && 1 + new_count(lines.subrange(0, b)) <= u32::MAX,
        in_old(lines[a]) && in_old(lines[b]) && no_hunk(lines.subrange(a, b)) ==> gutter_at(
            lines,
            b,
        ).old->0 == gutter_at(lines, a).old->0 + old_count(lines.subrange(a, b)),
        in_new(lines[a]) && in_new(lines[b]) && no_hunk(lines.subrange(a, b)) ==> gutter_at(
            lines,
            b,
        ).new->0 == gutter_at(lines, a).new->0 + new_count(lines.subrange(a, b)),
        lines[a] matches DiffLineView::Hunk { old_start, .. } ==> (a < b && in_old(lines[b])
            && no_hunk(lines.subrange(a + 1, b)) ==> gutter_at(lines, b).old->0 == old_start
            + old_count(lines.subrange(a + 1, b))),
        lines[a] matches DiffLineView::Hunk { new_start, .. } ==> (a < b && in_new(lines[b])
            && no_hunk(lines.subrange(a + 1, b)) ==> gutter_at(lines, b).new->0 == new_start
            + new_count(lines.subrange(a + 1, b))),
{
    lemma_counters_nonneg(lines, a as nat);
    lemma_counters_nonneg(lines, b as nat);
    assert(fits_at(lines, a));
    assert(fits_at(lines, b));
    if no_hunk(lines.subrange(0, b)) {
        lemma_counters_run(lines, 0, b);
    }
    if no_hunk(lines.subrange(a, b)) {
        lemma_counters_run(lines, a, b);
    }
    if a < b && lines[a] is Hunk && no_hunk(lines.subrange(a + 1, b)) {
        lemma_counters_run(lines, a + 1, b);
    }
}

/// Whether the lines can be numbered without a counter going past `u32::MAX`.
pub fn gutter_fits(lines: &Vec<DiffLine>) -> (res: bool)
    ensures
        res == counters_fit(diff_views(lines@)),
{
    let ghost lv = diff_views(lines@);
    let mut old_line: u32 = 1;
    let mut new_line: u32 = 1;
    let mut i: usize = 0;
    while i < lines.len()
        invariant
            lv == diff_views(lines@),
            i <= lines@.len(),
            counters(lv, i as nat) == (old_line as int, new_line as int),
            forall|k: int| 0 <= k < i ==> #[trigger] fits_at(lv, k),
        decreases lines@.len() - i,
    {
        proof {
            assert(lv[i as int] == lines@[i as int]@);
        }
        match &lines[i] {
            DiffLine::Hunk { old_start, new_start, .. } => {
                old_line = *old_start;
                new_line = *new_start;
            },
            DiffLine::Context(_) => {
                if old_line == u32::MAX || new_line == u32::MAX {
                    proof {
                        assert(!fits_at(lv, i as int));
                    }
                    return false;
                }
                old_line = old_line + 1;
                new_line = new_line + 1;
            },
            DiffLine::Added(_) => {
                if new_line == u32::MAX {
                    proof {
                        assert(!fits_at(lv, i as int));
                    }
                    return false;
                }
                new_line = new_line + 1;
            },
            DiffLine::Removed(_) => {
                if old_line == u32::MAX {
                    proof {
                        assert(!fits_at(lv, i as int));
                    }
                    return false;
                }
                old_line = old_line + 1;
            },
        }
        i = i + 1;
    }
    true
}

/// The line numbers beside each line of a diff, as the gutter shows them.
pub fn gutter_numbers(lines: &Vec<DiffLine>) -> (res: Vec<GutterNumbers>)
    requires
        counters_fit(diff_views(lines@)),
    ensures
        res@.len() == lines@.len(),
        forall|k: int| 0 <= k < lines@.len() ==> #[trigger] res@[k] == gutter_at(diff_views(lines@), k),
        forall|k: int|
            0 <= k < lines@.len() ==> gutter_shape(lines@[k]@, #[trigger] res@[k], k == 0),
        forall|k: int|
            0 < k < lines@.len() ==> gutter_step(lines@[k - 1]@, lines@[k]@, res@[k - 1], #[trigger] res@[k]),
{
    let ghost lv = diff_views(lines@);
    let mut res: Vec<GutterNumbers> = Vec::new();
    let mut old_line: u32 = 1;
    let mut new_line: u32 = 1;
    let mut i: usize = 0;
    while i < lines.len()
        invariant
            lv == diff_views(lines@),
            counters_fit(lv),
            i <= lines@.len(),
            res@.len() == i,
            counters(lv, i as nat) == (old_line as int, new_line as int),
            forall|k: int| 0 <= k < i ==> #[trigger] res@[k] == gutter_at(lv, k),
        decreases lines@.len() - i,
    {
        proof {
            assert(lv[i as int] == lines@[i as int]@);
            assert(fits_at(lv, i as int));
        }
        let g = match &lines[i] {
            DiffLine::Hunk { old_start, new_start, .. } => {
                old_line = *old_start;
                new_line = *new_start;
                GutterNumbers { old: None, new: None }
            },
            DiffLine::Context(_) => {
                let g = GutterNumbers { old: Some(old_line), new: Some(new_line) };
                old_line = old_line + 1;
                new_line = new_line + 1;
                g
            },
            DiffLine::Added(_) => {
                let g = GutterNumbers { old: None, new: Some(new_line) };
                new_line = new_line + 1;
                g
            },
            DiffLine::Removed(_) => {
                let g = GutterNumbers { old: Some(old_line), new: None };
                old_line = old_line + 1;
                g
            },
        };
        res.push(g);
        i = i + 1;
    }
    proof {
        assert forall|k: int| 0 <= k < lines@.len() implies gutter_shape(
            lines@[k]@,
            #[trigger] res@[k],
            k == 0,
        ) && (k > 0 ==> gutter_step(lines@[k - 1]@, lines@[k]@, res@[k - 1], res@[k])) by {
            lemma_gutter_steps(lv, k);
            assert(lv[k] == lines@[k]@);
            if k > 0 {
                assert(lv[k - 1] == lines@[k - 1]@);
            }
        }
    }
    res
}

} // verus!
