//! A line-by-line diff built on a longest common subsequence of lines.

use vstd::prelude::*;

use crate::repo::{diff_views, texts, ChangeKind, DiffLine, DiffLineView, FileDiff};
use crate::text::{spec_lines, split_lines};

verus! {

/// Length of a longest common subsequence of `a[..i]` and `b[..j]`.
pub open spec fn lcs_len(a: Seq<Seq<char>>, b: Seq<Seq<char>>, i: nat, j: nat) -> nat
    decreases i + j,
{
    if i == 0 || j == 0 {
        0
    } else if a[i - 1] == b[j - 1] {
        lcs_len(a, b, (i - 1) as nat, (j - 1) as nat) + 1
    } else {
        let up = lcs_len(a, b, (i - 1) as nat, j);
        let left = lcs_len(a, b, i, (j - 1) as nat);
        if up >= left {
            up
        } else {
            left
        }
    }
}

/// The common subsequence of `a[..i]` and `b[..j]` that is recovered by walking
/// back from `(i, j)`: a matching pair is taken, otherwise the walk moves up
/// when that keeps a strictly longer subsequence, and left in every other case.
pub open spec fn lcs_pairs(a: Seq<Seq<char>>, b: Seq<Seq<char>>, i: nat, j: nat) -> Seq<(int, int)>
    decreases i + j,
{
    if i == 0 || j == 0 {
        Seq::empty()
    } else if a[i - 1] == b[j - 1] {
        lcs_pairs(a, b, (i - 1) as nat, (j - 1) as nat).push(((i - 1) as int, (j - 1) as int))
    } else if lcs_len(a, b, (i - 1) as nat, j) > lcs_len(a, b, i, (j - 1) as nat) {
        lcs_pairs(a, b, (i - 1) as nat, j)
    } else {
        lcs_pairs(a, b, i, (j - 1) as nat)
    }
}

/// `ps` pairs up equal lines of `a[..i]` and `b[..j]`, in strictly increasing
/// order on both sides: a common subsequence given by its positions.
pub open spec fn is_matching(
    a: Seq<Seq<char>>,
    b: Seq<Seq<char>>,
    ps: Seq<(int, int)>,
    i: int,
    j: int,
) -> bool {
    &&& forall|k: int|
        0 <= k < ps.len() ==> {
            &&& 0 <= #[trigger] ps[k].0 < i
            &&& 0 <= ps[k].1 < j
            &&& i <= a.len()
            &&& j <= b.len()
            &&& a[ps[k].0] == b[ps[k].1]
        }
    &&& forall|k: int, l: int|
        0 <= k < l < ps.len() ==> #[trigger] ps[k].0 < #[trigger] ps[l].0 && ps[k].1 < ps[l].1
}

/// Each step of the table changes the length by at most one, and never lowers it.
proof fn lemma_lcs_steps(a: Seq<Seq<char>>, b: Seq<Seq<char>>, i: nat, j: nat)
    ensures
        i >= 1 ==> lcs_len(a, b, (i - 1) as nat, j) <= lcs_len(a, b, i, j) <= lcs_len(
            a,
            b,
            (i - 1) as nat,
            j,
        ) + 1,
        j >= 1 ==> lcs_len(a, b, i, (j - 1) as nat) <= lcs_len(a, b, i, j) <= lcs_len(
            a,
            b,
            i,
            (j - 1) as nat,
        ) + 1,
    decreases i + j,
{
    if i >= 1 && j >= 1 {
        lemma_lcs_steps(a, b, (i - 1) as nat, j);
        lemma_lcs_steps(a, b, i, (j - 1) as nat);
        if i >= 2 {
            lemma_lcs_steps(a, b, (i - 1) as nat, (j - 1) as nat);
        }
    } else if i >= 1 {
        assert(lcs_len(a, b, i, j) == 0);
        assert(lcs_len(a, b, (i - 1) as nat, j) == 0);
    } else if j >= 1 {
        assert(lcs_len(a, b, i, j) == 0);
        assert(lcs_len(a, b, i, (j - 1) as nat) == 0);
    }
}

/// The recovered pairs form a common subsequence whose length is `lcs_len`.
pub proof fn lemma_lcs_pairs_matching(a: Seq<Seq<char>>, b: Seq<Seq<char>>, i: nat, j: nat)
    requires
        i <= a.len(),
        j <= b.len(),
    ensures
        is_matching(a, b, lcs_pairs(a, b, i, j), i as int, j as int),
        lcs_pairs(a, b, i, j).len() == lcs_len(a, b, i, j),
    decreases i + j,
{
    if i == 0 || j == 0 {
    } else if a[i - 1] == b[j - 1] {
        lemma_lcs_pairs_matching(a, b, (i - 1) as nat, (j - 1) as nat);
        let prev = lcs_pairs(a, b, (i - 1) as nat, (j - 1) as nat);
        let ps = lcs_pairs(a, b, i, j);
        assert(ps == prev.push(((i - 1) as int, (j - 1) as int)));
        assert forall|k: int, l: int| 0 <= k < l < ps.len() implies #[trigger] ps[k].0
            < #[trigger] ps[l].0 && ps[k].1 < ps[l].1 by {
            if l == ps.len() - 1 {
                assert(ps[k] == prev[k]);
            } else {
                assert(ps[k] == prev[k]);
                assert(ps[l] == prev[l]);
            }
        }
        assert forall|k: int| 0 <= k < ps.len() implies {
            &&& 0 <= #[trigger] ps[k].0 < i
            &&& 0 <= ps[k].1 < j
            &&& i <= a.len()
            &&& j <= b.len()
            &&& a[ps[k].0] == b[ps[k].1]
        } by {
            if k < ps.len() - 1 {
                assert(ps[k] == prev[k]);
            }
        }
    } else if lcs_len(a, b, (i - 1) as nat, j) > lcs_len(a, b, i, (j - 1) as nat) {
        lemma_lcs_pairs_matching(a, b, (i - 1) as nat, j);
    } else {
        lemma_lcs_pairs_matching(a, b, i, (j - 1) as nat);
    }
}

/// No common subsequence of `a[..i]` and `b[..j]` is longer than `lcs_len(a, b, i, j)`.
pub proof fn lemma_lcs_len_is_maximal(
    a: Seq<Seq<char>>,
    b: Seq<Seq<char>>,
    ps: Seq<(int, int)>,
    i: nat,
    j: nat,
)
    requires
        is_matching(a, b, ps, i as int, j as int),
    ensures
        ps.len() <= lcs_len(a, b, i, j),
    decreases i + j,
{
    if ps.len() == 0 {
        return;
    }
    let last = ps.last();
    assert(0 <= last.0 < i && 0 <= last.1 < j) by {
        assert(ps[ps.len() - 1] == last);
    }
    lemma_lcs_steps(a, b, i, j);
    let front = ps.drop_last();
    if last.0 == i - 1 && last.1 == j - 1 {
        assert(a[i - 1] == b[j - 1]) by {
            assert(ps[ps.len() - 1] == last);
        }
        assert(is_matching(a, b, front, i - 1, j - 1)) by {
            assert forall|k: int| 0 <= k < front.len() implies {
                &&& 0 <= #[trigger] front[k].0 < i - 1
                &&& 0 <= front[k].1 < j - 1
                &&& i - 1 <= a.len()
                &&& j - 1 <= b.len()
                &&& a[front[k].0] == b[front[k].1]
            } by {
                assert(front[k] == ps[k]);
                assert(ps[k].0 < ps[ps.len() - 1].0);
            }
            assert forall|k: int, l: int| 0 <= k < l < front.len() implies #[trigger] front[k].0
                < #[trigger] front[l].0 && front[k].1 < front[l].1 by {
                assert(front[k] == ps[k]);
                assert(front[l] == ps[l]);
            }
        }
        lemma_lcs_len_is_maximal(a, b, front, (i - 1) as nat, (j - 1) as nat);
    } else if last.0 < i - 1 {
        assert(is_matching(a, b, ps, i - 1, j as int)) by {
            assert forall|k: int| 0 <= k < ps.len() implies #[trigger] ps[k].0 < i - 1 by {
                if k < ps.len() - 1 {
                    assert(ps[k].0 < ps[ps.len() - 1].0);
                }
            }
        }
        lemma_lcs_len_is_maximal(a, b, ps, (i - 1) as nat, j);
    } else {
        assert(last.1 < j - 1);
        assert(is_matching(a, b, ps, i as int, j - 1)) by {
            assert forall|k: int| 0 <= k < ps.len() implies #[trigger] ps[k].1 < j - 1 by {
                if k < ps.len() - 1 {
                    assert(ps[k].0 < ps[ps.len() - 1].0);
                }
            }
        }
        lemma_lcs_len_is_maximal(a, b, ps, i, (j - 1) as nat);
    }
}

/// Pairs of indices given as exact integers.
pub open spec fn pair_views(ps: Seq<(usize, usize)>) -> Seq<(int, int)> {
    ps.map_values(|p: (usize, usize)| (p.0 as int, p.1 as int))
}

/// Computes a longest common subsequence of two sequences of lines and
/// returns the positions of its lines in `old` and in `new`, in order.
pub fn longest_common_subsequence(old: &Vec<String>, new: &Vec<String>) -> (res: Vec<(usize, usize)>)
    requires
        old.len() < usize::MAX,
        new.len() < usize::MAX,
    ensures
        pair_views(res@) == lcs_pairs(texts(old@), texts(new@), old.len() as nat, new.len() as nat),
{
    let ghost a = texts(old@);
    let ghost b = texts(new@);
    let m = old.len();
    let n = new.len();

    if m == 0 || n == 0 {
        proof {
            assert(pair_views(Seq::<(usize, usize)>::empty()) =~= Seq::<(int, int)>::empty());
        }
        return Vec::new();
    }
    // Build the table of prefix lengths, one row at a time.

    let mut dp: Vec<Vec<usize>> = Vec::new();
    let mut first_row: Vec<usize> = Vec::new();
    let mut j0: usize = 0;
    while j0 <= n
        invariant
            j0 <= n + 1,
            n < usize::MAX,
            first_row@.len() == j0,
            forall|jj: int| 0 <= jj < j0 ==> first_row@[jj] == 0,
        decreases n + 1 - j0,
    {
        first_row.push(0);
        j0 = j0 + 1;
    }
    proof {
        assert forall|jj: int| 0 <= jj <= n implies first_row@[jj] == lcs_len(a, b, 0, jj as nat) by {
        }
    }
    dp.push(first_row);

    let mut i: usize = 1;
    while i <= m
        invariant
            1 <= i <= m + 1,
            m == old.len(),
            n == new.len(),
            m < usize::MAX,
            n < usize::MAX,
            a == texts(old@),
            b == texts(new@),
            dp@.len() == i,
            forall|ii: int|
                0 <= ii < i ==> (#[trigger] dp@[ii])@.len() == n + 1 && forall|jj: int|
                    0 <= jj <= n ==> dp@[ii]@[jj] == lcs_len(a, b, ii as nat, jj as nat),
        decreases m + 1 - i,
    {
        let mut row: Vec<usize> = Vec::new();
        row.push(0);
        let mut j: usize = 1;
        while j <= n
            invariant
                1 <= i <= m,
                1 <= j <= n + 1,
                m == old.len(),
                n == new.len(),
                n < usize::MAX,
                a == texts(old@),
                b == texts(new@),
                dp@.len() == i,
                forall|ii: int|
                    0 <= ii < i ==> (#[trigger] dp@[ii])@.len() == n + 1 && forall|jj: int|
                        0 <= jj <= n ==> dp@[ii]@[jj] == lcs_len(a, b, ii as nat, jj as nat),
                row@.len() == j,
                forall|jj: int| 0 <= jj < j ==> row@[jj] == lcs_len(a, b, i as nat, jj as nat),
            decreases n + 1 - j,
        {
            let prev = &dp[i - 1];
            assert(a[i - 1] == old@[i - 1]@);
            assert(b[j - 1] == new@[j - 1]@);
            proof {
                lemma_lcs_steps(a, b, i as nat, j as nat);
                lemma_lcs_bounded(a, b, (i - 1) as nat, (j - 1) as nat);
            }
            if old[i - 1] == new[j - 1] {
                let v = prev[j - 1] + 1;
                row.push(v);
            } else {
                let up = prev[j];
                let left = row[j - 1];
                if up >= left {
                    row.push(up);
                } else {
                    row.push(left);
                }
            }
            j = j + 1;
        }
        dp.push(row);
        i = i + 1;
    }

    // Walk back through the table, collecting matches from the end.
    let mut rev: Vec<(usize, usize)> = Vec::new();
    let mut i: usize = m;
    let mut j: usize = n;
    while i > 0 && j > 0
        invariant
            i <= m,
            j <= n,
            m == old.len(),
            n == new.len(),
            a == texts(old@),
            b == texts(new@),
            dp@.len() == m + 1,
            forall|ii: int|
                0 <= ii <= m ==> (#[trigger] dp@[ii])@.len() == n + 1 && forall|jj: int|
                    0 <= jj <= n ==> dp@[ii]@[jj] == lcs_len(a, b, ii as nat, jj as nat),
            lcs_pairs(a, b, m as nat, n as nat) == lcs_pairs(a, b, i as nat, j as nat) + pair_views(
                rev@,
            ).reverse(),
        decreases i + j,
    {
        assert(a[i - 1] == old@[i - 1]@);
        assert(b[j - 1] == new@[j - 1]@);
        let ghost before = pair_views(rev@);
        if old[i - 1] == new[j - 1] {
            rev.push((i - 1, j - 1));
            proof {
                assert(pair_views(rev@) =~= before.push(((i - 1) as int, (j - 1) as int)));
                assert(pair_views(rev@).reverse() =~= seq![((i - 1) as int, (j - 1) as int)]
                    + before.reverse());
                assert(lcs_pairs(a, b, i as nat, j as nat) == lcs_pairs(
                    a,
                    b,
                    (i - 1) as nat,
                    (j - 1) as nat,
                ).push(((i - 1) as int, (j - 1) as int)));
                assert(lcs_pairs(a, b, (i - 1) as nat, (j - 1) as nat).push(
                    ((i - 1) as int, (j - 1) as int),
                ) + before.reverse() =~= lcs_pairs(a, b, (i - 1) as nat, (j - 1) as nat)
                    + (seq![((i - 1) as int, (j - 1) as int)] + before.reverse()));
            }
            i = i - 1;
            j = j - 1;
        } else if dp[i - 1][j] > dp[i][j - 1] {
            i = i - 1;
        } else {
            j = j - 1;
        }
    }
    proof {
        assert(lcs_pairs(a, b, i as nat, j as nat) == Seq::<(int, int)>::empty());
        assert(lcs_pairs(a, b, m as nat, n as nat) =~= pair_views(rev@).reverse());
    }

    let mut res: Vec<(usize, usize)> = Vec::new();
    let mut k: usize = rev.len();
    while k > 0
        invariant
            k <= rev@.len(),
            res@.len() == rev@.len() - k,
            forall|t: int| 0 <= t < res@.len() ==> res@[t] == rev@[rev@.len() - 1 - t],
        decreases k,
    {
        k = k - 1;
        res.push(rev[k]);
    }
    proof {
        assert(pair_views(res@) =~= pair_views(rev@).reverse());
    }
    res
}

/// Every entry of the table is at most the length of the shorter prefix.
proof fn lemma_lcs_bounded(a: Seq<Seq<char>>, b: Seq<Seq<char>>, i: nat, j: nat)
    ensures
        lcs_len(a, b, i, j) <= i,
        lcs_len(a, b, i, j) <= j,
    decreases i + j,
{
    if i > 0 && j > 0 {
        lemma_lcs_bounded(a, b, (i - 1) as nat, (j - 1) as nat);
        lemma_lcs_bounded(a, b, (i - 1) as nat, j);
        lemma_lcs_bounded(a, b, i, (j - 1) as nat);
    }
}


/// `Removed` lines for `old[lo..hi]`.
pub open spec fn removed_run(old: Seq<Seq<char>>, lo: int, hi: int) -> Seq<DiffLineView> {
    Seq::new((hi - lo) as nat, |t: int| DiffLineView::Removed(old[lo + t]))
}

/// `Added` lines for `new[lo..hi]`.
pub open spec fn added_run(new: Seq<Seq<char>>, lo: int, hi: int) -> Seq<DiffLineView> {
    Seq::new((hi - lo) as nat, |t: int| DiffLineView::Added(new[lo + t]))
}

/// The diff that walks the matches `ps[k..]` from positions `oi` in `old` and
/// `ni` in `new`: before each match the skipped lines of `old` as `Removed`,
/// then the skipped lines of `new` as `Added`, then the matched line as
/// `Context`; after the last match the rest of `old` as `Removed` and the rest
/// of `new` as `Added`.
pub open spec fn diff_script(
    old: Seq<Seq<char>>,
    new: Seq<Seq<char>>,
    ps: Seq<(int, int)>,
    k: int,
    oi: int,
    ni: int,
) -> Seq<DiffLineView>
    decreases ps.len() - k,
{
    if k < 0 || k >= ps.len() {
        removed_run(old, oi, old.len() as int) + added_run(new, ni, new.len() as int)
    } else {
        removed_run(old, oi, ps[k].0) + added_run(new, ni, ps[k].1) + seq![
            DiffLineView::Context(old[ps[k].0]),
        ] + diff_script(old, new, ps, k + 1, ps[k].0 + 1, ps[k].1 + 1)
    }
}

/// The diff of two sequences of lines, as `compute_diff` produces it.
pub open spec fn spec_diff(old: Seq<Seq<char>>, new: Seq<Seq<char>>) -> Seq<DiffLineView> {
    diff_script(old, new, lcs_pairs(old, new, old.len(), new.len()), 0, 0, 0)
}

/// Builds a line diff of `old_lines` against `new_lines` from their longest
/// common subsequence: matched lines are `Context`, the others `Removed` or `Added`.
pub fn compute_diff(old_lines: &Vec<String>, new_lines: &Vec<String>) -> (res: Vec<DiffLine>)
    requires
        old_lines.len() < usize::MAX,
        new_lines.len() < usize::MAX,
    ensures
        diff_views(res@) == spec_diff(texts(old_lines@), texts(new_lines@)),
{
    let ghost a = texts(old_lines@);
    let ghost b = texts(new_lines@);
    let lcs = longest_common_subsequence(old_lines, new_lines);
    let ghost ps = pair_views(lcs@);
    proof {
        lemma_lcs_pairs_matching(a, b, a.len(), b.len());
    }
    let ghost total = diff_script(a, b, ps, 0, 0, 0);
    let m = old_lines.len();
    let n = new_lines.len();
    let mut result: Vec<DiffLine> = Vec::new();
    let mut old_idx: usize = 0;
    let mut new_idx: usize = 0;
    let mut lcs_idx: usize = 0;
    proof {
        assert(diff_views(result@) + diff_script(a, b, ps, 0, 0, 0) =~= total);
    }

    while old_idx < m || new_idx < n
        invariant
            m == old_lines.len(),
            n == new_lines.len(),
            a == texts(old_lines@),
            b == texts(new_lines@),
            ps == pair_views(lcs@),
            is_matching(a, b, ps, m as int, n as int),
            lcs_idx <= ps.len(),
            old_idx <= m,
            new_idx <= n,
            lcs_idx < ps.len() ==> ps[lcs_idx as int].0 >= old_idx && ps[lcs_idx as int].1
                >= new_idx,
            diff_views(result@) + diff_script(a, b, ps, lcs_idx as int, old_idx as int, new_idx as int)
                == total,
        decreases (m - old_idx) + (n - new_idx) + (ps.len() - lcs_idx),
    {
        if lcs_idx < lcs.len() {
            let (lcs_old, lcs_new) = lcs[lcs_idx];
            let ghost k = lcs_idx as int;
            let ghost tail = seq![DiffLineView::Context(a[lcs_old as int])] + diff_script(
                a,
                b,
                ps,
                k + 1,
                lcs_old + 1,
                lcs_new + 1,
            );
            assert(ps[k] == (lcs_old as int, lcs_new as int));
            assert(diff_script(a, b, ps, k, old_idx as int, new_idx as int) =~= removed_run(
                a,
                old_idx as int,
                lcs_old as int,
            ) + added_run(b, new_idx as int, lcs_new as int) + tail);

            while old_idx < lcs_old
                invariant
                    old_idx <= lcs_old,
                    lcs_old < m,
                    m == old_lines.len(),
                    a == texts(old_lines@),
                    diff_views(result@) + (removed_run(a, old_idx as int, lcs_old as int)
                        + added_run(b, new_idx as int, lcs_new as int) + tail) == total,
                decreases lcs_old - old_idx,
            {
                let ghost before = diff_views(result@);
                result.push(DiffLine::Removed(old_lines[old_idx].clone()));
                proof {
                    assert(diff_views(result@) =~= before.push(DiffLineView::Removed(a[old_idx as int])));
                    assert(removed_run(a, old_idx as int, lcs_old as int) =~= seq![
                        DiffLineView::Removed(a[old_idx as int]),
                    ] + removed_run(a, old_idx + 1, lcs_old as int));
                    assert(diff_views(result@) + (removed_run(a, old_idx + 1, lcs_old as int)
                        + added_run(b, new_idx as int, lcs_new as int) + tail) =~= before + (
                    removed_run(a, old_idx as int, lcs_old as int) + added_run(
                        b,
                        new_idx as int,
                        lcs_new as int,
                    ) + tail));
                }
                old_idx = old_idx + 1;
            }
            while new_idx < lcs_new
                invariant
                    new_idx <= lcs_new,
                    lcs_new < n,
                    n == new_lines.len(),
                    b == texts(new_lines@),
                    diff_views(result@) + (added_run(b, new_idx as int, lcs_new as int) + tail)
                        == total,
                decreases lcs_new - new_idx,
            {
                let ghost before = diff_views(result@);
                result.push(DiffLine::Added(new_lines[new_idx].clone()));
                proof {
                    assert(diff_views(result@) =~= before.push(DiffLineView::Added(b[new_idx as int])));
                    assert(added_run(b, new_idx as int, lcs_new as int) =~= seq![
                        DiffLineView::Added(b[new_idx as int]),
                    ] + added_run(b, new_idx + 1, lcs_new as int));
                    assert(diff_views(result@) + (added_run(b, new_idx + 1, lcs_new as int) + tail)
                        =~= before + (added_run(b, new_idx as int, lcs_new as int) + tail));
                }
                new_idx = new_idx + 1;
            }
            proof {
                assert(removed_run(a, old_idx as int, lcs_old as int) =~= Seq::<DiffLineView>::empty());
            }
            if old_idx < m && new_idx < n {
                let ghost before = diff_views(result@);
                result.push(DiffLine::Context(old_lines[old_idx].clone()));
                proof {
                    assert(diff_views(result@) =~= before.push(DiffLineView::Context(a[old_idx as int])));
                    assert(diff_views(result@) + diff_script(a, b, ps, k + 1, old_idx + 1, new_idx + 1)
                        =~= before + tail);
                }
                old_idx = old_idx + 1;
                new_idx = new_idx + 1;
            }
            lcs_idx = lcs_idx + 1;
            proof {
                if lcs_idx < ps.len() {
                    assert(ps[k].0 < ps[lcs_idx as int].0 && ps[k].1 < ps[lcs_idx as int].1);
                }
            }
        } else {
            let ghost rest_added = added_run(b, new_idx as int, n as int);
            while old_idx < m
                invariant
                    old_idx <= m,
                    m == old_lines.len(),
                    a == texts(old_lines@),
                    diff_views(result@) + (removed_run(a, old_idx as int, m as int) + rest_added)
                        == total,
                decreases m - old_idx,
            {
                let ghost before = diff_views(result@);
                result.push(DiffLine::Removed(old_lines[old_idx].clone()));
                proof {
                    assert(diff_views(result@) =~= before.push(DiffLineView::Removed(a[old_idx as int])));
                    assert(removed_run(a, old_idx as int, m as int) =~= seq![
                        DiffLineView::Removed(a[old_idx as int]),
                    ] + removed_run(a, old_idx + 1, m as int));
                    assert(diff_views(result@) + (removed_run(a, old_idx + 1, m as int) + rest_added)
                        =~= before + (removed_run(a, old_idx as int, m as int) + rest_added));
                }
                old_idx = old_idx + 1;
            }
            proof {
                assert(removed_run(a, m as int, m as int) =~= Seq::<DiffLineView>::empty());
            }
            while new_idx < n
                invariant
                    new_idx <= n,
                    n == new_lines.len(),
                    b == texts(new_lines@),
                    diff_views(result@) + added_run(b, new_idx as int, n as int) == total,
                decreases n - new_idx,
            {
                let ghost before = diff_views(result@);
                result.push(DiffLine::Added(new_lines[new_idx].clone()));
                proof {
                    assert(diff_views(result@) =~= before.push(DiffLineView::Added(b[new_idx as int])));
                    assert(added_run(b, new_idx as int, n as int) =~= seq![
                        DiffLineView::Added(b[new_idx as int]),
                    ] + added_run(b, new_idx + 1, n as int));
                    assert(diff_views(result@) + added_run(b, new_idx + 1, n as int) =~= before
                        + added_run(b, new_idx as int, n as int));
                }
                new_idx = new_idx + 1;
            }
            proof {
                assert(added_run(b, n as int, n as int) =~= Seq::<DiffLineView>::empty());
                assert(diff_script(a, b, ps, lcs_idx as int, old_idx as int, new_idx as int)
                    =~= Seq::<DiffLineView>::empty());
            }
        }
    }
    proof {
        if lcs_idx < ps.len() {
            assert(ps[lcs_idx as int].0 < m);
        }
        assert(removed_run(a, m as int, m as int) =~= Seq::<DiffLineView>::empty());
        assert(added_run(b, n as int, n as int) =~= Seq::<DiffLineView>::empty());
        assert(diff_views(result@) =~= total);
    }
    result
}


/// The lines of the old side that a diff shows: its `Context` and `Removed` lines.
pub open spec fn old_side(ls: Seq<DiffLineView>) -> Seq<Seq<char>>
    decreases ls.len(),
{
    if ls.len() == 0 {
        Seq::empty()
    } else {
        let rest = old_side(ls.drop_last());
        match ls.last() {
            DiffLineView::Context(t) => rest.push(t),
            DiffLineView::Removed(t) => rest.push(t),
            _ => rest,
        }
    }
}

/// The lines of the new side that a diff shows: its `Context` and `Added` lines.
pub open spec fn new_side(ls: Seq<DiffLineView>) -> Seq<Seq<char>>
    decreases ls.len(),
{
    if ls.len() == 0 {
        Seq::empty()
    } else {
        let rest = new_side(ls.drop_last());
        match ls.last() {
            DiffLineView::Context(t) => rest.push(t),
            DiffLineView::Added(t) => rest.push(t),
            _ => rest,
        }
    }
}

proof fn lemma_sides_concat(x: Seq<DiffLineView>, y: Seq<DiffLineView>)
    ensures
        old_side(x + y) == old_side(x) + old_side(y),
        new_side(x + y) == new_side(x) + new_side(y),
    decreases y.len(),
{
    if y.len() == 0 {
        assert(x + y =~= x);
        assert(old_side(x) + old_side(y) =~= old_side(x));
        assert(new_side(x) + new_side(y) =~= new_side(x));
    } else {
        lemma_sides_concat(x, y.drop_last());
        assert((x + y).drop_last() =~= x + y.drop_last());
        assert((x + y).last() == y.last());
        let ox = old_side(x);
        let nx = new_side(x);
        let oy = old_side(y.drop_last());
        let ny = new_side(y.drop_last());
        match y.last() {
            DiffLineView::Context(t) => {
                assert(ox + oy.push(t) =~= (ox + oy).push(t));
                assert(nx + ny.push(t) =~= (nx + ny).push(t));
            },
            DiffLineView::Removed(t) => {
                assert(ox + oy.push(t) =~= (ox + oy).push(t));
            },
            DiffLineView::Added(t) => {
                assert(nx + ny.push(t) =~= (nx + ny).push(t));
            },
            _ => {},
        }
    }
}

proof fn lemma_removed_run_sides(old: Seq<Seq<char>>, lo: int, hi: int)
    requires
        0 <= lo <= hi <= old.len(),
    ensures
        old_side(removed_run(old, lo, hi)) == old.subrange(lo, hi),
        new_side(removed_run(old, lo, hi)) == Seq::<Seq<char>>::empty(),
    decreases hi - lo,
{
    if lo < hi {
        lemma_removed_run_sides(old, lo, hi - 1);
        assert(removed_run(old, lo, hi).drop_last() =~= removed_run(old, lo, hi - 1));
        assert(old.subrange(lo, hi) =~= old.subrange(lo, hi - 1).push(old[hi - 1]));
    } else {
        assert(old.subrange(lo, hi) =~= Seq::<Seq<char>>::empty());
    }
}

proof fn lemma_added_run_sides(new: Seq<Seq<char>>, lo: int, hi: int)
    requires
        0 <= lo <= hi <= new.len(),
    ensures
        old_side(added_run(new, lo, hi)) == Seq::<Seq<char>>::empty(),
        new_side(added_run(new, lo, hi)) == new.subrange(lo, hi),
    decreases hi - lo,
{
    if lo < hi {
        lemma_added_run_sides(new, lo, hi - 1);
        assert(added_run(new, lo, hi).drop_last() =~= added_run(new, lo, hi - 1));
        assert(new.subrange(lo, hi) =~= new.subrange(lo, hi - 1).push(new[hi - 1]));
    } else {
        assert(new.subrange(lo, hi) =~= Seq::<Seq<char>>::empty());
    }
}

proof fn lemma_script_sides(
    old: Seq<Seq<char>>,
    new: Seq<Seq<char>>,
    ps: Seq<(int, int)>,
    k: int,
    oi: int,
    ni: int,
)
    requires
        is_matching(old, new, ps, old.len() as int, new.len() as int),
        0 <= k <= ps.len(),
        0 <= oi <= old.len(),
        0 <= ni <= new.len(),
        k < ps.len() ==> ps[k].0 >= oi && ps[k].1 >= ni,
    ensures
        old_side(diff_script(old, new, ps, k, oi, ni)) == old.subrange(oi, old.len() as int),
        new_side(diff_script(old, new, ps, k, oi, ni)) == new.subrange(ni, new.len() as int),
    decreases ps.len() - k,
{
    if k >= ps.len() {
        let r = removed_run(old, oi, old.len() as int);
        let d = added_run(new, ni, new.len() as int);
        lemma_sides_concat(r, d);
        lemma_removed_run_sides(old, oi, old.len() as int);
        lemma_added_run_sides(new, ni, new.len() as int);
        assert(old.subrange(oi, old.len() as int) + Seq::<Seq<char>>::empty() =~= old.subrange(
            oi,
            old.len() as int,
        ));
        assert(Seq::<Seq<char>>::empty() + new.subrange(ni, new.len() as int) =~= new.subrange(
            ni,
            new.len() as int,
        ));
    } else {
        let (p, q) = ps[k];
        if k + 1 < ps.len() {
            assert(ps[k].0 < ps[k + 1].0 && ps[k].1 < ps[k + 1].1);
        }
        lemma_script_sides(old, new, ps, k + 1, p + 1, q + 1);
        let r = removed_run(old, oi, p);
        let d = added_run(new, ni, q);
        let c = seq![DiffLineView::Context(old[p])];
        let rest = diff_script(old, new, ps, k + 1, p + 1, q + 1);
        assert(0 <= p < old.len() && 0 <= q < new.len() && old[p] == new[q]);
        lemma_removed_run_sides(old, oi, p);
        lemma_added_run_sides(new, ni, q);
        lemma_sides_concat(r, d);
        lemma_sides_concat(r + d, c);
        lemma_sides_concat(r + d + c, rest);
        assert(c.drop_last() =~= Seq::<DiffLineView>::empty());
        assert(c.last() == DiffLineView::Context(old[p]));
        assert(old_side(c.drop_last()) =~= Seq::<Seq<char>>::empty());
        assert(new_side(c.drop_last()) =~= Seq::<Seq<char>>::empty());
        assert(old_side(c) =~= seq![old[p]]);
        assert(new_side(c) =~= seq![new[q]]);
        assert(old.subrange(oi, p) + Seq::<Seq<char>>::empty() + seq![old[p]] + old.subrange(
            p + 1,
            old.len() as int,
        ) =~= old.subrange(oi, old.len() as int));
        assert(Seq::<Seq<char>>::empty() + new.subrange(ni, q) + seq![new[q]] + new.subrange(
            q + 1,
            new.len() as int,
        ) =~= new.subrange(ni, new.len() as int));
    }
}

/// A diff shows both files in full: its `Context` and `Removed` lines, in order,
/// are the old lines, and its `Context` and `Added` lines, in order, are the new ones.
pub proof fn lemma_diff_reconstructs_both_sides(old: Seq<Seq<char>>, new: Seq<Seq<char>>)
    ensures
        old_side(spec_diff(old, new)) == old,
        new_side(spec_diff(old, new)) == new,
{
    let ps = lcs_pairs(old, new, old.len(), new.len());
    lemma_lcs_pairs_matching(old, new, old.len(), new.len());
    lemma_script_sides(old, new, ps, 0, 0, 0);
    assert(old.subrange(0, old.len() as int) =~= old);
    assert(new.subrange(0, new.len() as int) =~= new);
}


/// Every line of a file, shown as unchanged.
pub open spec fn all_context(lines: Seq<Seq<char>>) -> Seq<DiffLineView> {
    Seq::new(lines.len(), |t: int| DiffLineView::Context(lines[t]))
}

/// The pairs `(0, 0), ..., (n - 1, n - 1)`.
pub open spec fn diagonal(n: nat) -> Seq<(int, int)> {
    Seq::new(n, |k: int| (k, k))
}

proof fn lemma_lcs_pairs_self(a: Seq<Seq<char>>, i: nat)
    requires
        i <= a.len(),
    ensures
        lcs_pairs(a, a, i, i) == diagonal(i),
    decreases i,
{
    if i > 0 {
        lemma_lcs_pairs_self(a, (i - 1) as nat);
        assert(diagonal((i - 1) as nat).push(((i - 1) as int, (i - 1) as int)) =~= diagonal(i));
    } else {
        assert(diagonal(0) =~= Seq::<(int, int)>::empty());
    }
}

proof fn lemma_script_self(a: Seq<Seq<char>>, k: int)
    requires
        0 <= k <= a.len(),
    ensures
        diff_script(a, a, diagonal(a.len()), k, k, k) == Seq::new(
            (a.len() - k) as nat,
            |t: int| DiffLineView::Context(a[k + t]),
        ),
    decreases a.len() - k,
{
    let ps = diagonal(a.len());
    assert(removed_run(a, k, k) =~= Seq::<DiffLineView>::empty());
    assert(added_run(a, k, k) =~= Seq::<DiffLineView>::empty());
    if k < a.len() {
        lemma_script_self(a, k + 1);
        assert(ps[k] == (k, k));
        assert(removed_run(a, k, k) + added_run(a, k, k) + seq![DiffLineView::Context(a[k])]
            + Seq::new((a.len() - (k + 1)) as nat, |t: int| DiffLineView::Context(a[k + 1 + t]))
            =~= Seq::new((a.len() - k) as nat, |t: int| DiffLineView::Context(a[k + t])));
    } else {
        assert(Seq::<DiffLineView>::empty() + Seq::<DiffLineView>::empty() =~= Seq::new(
            (a.len() - k) as nat,
            |t: int| DiffLineView::Context(a[k + t]),
        ));
    }
}

/// A file diffed against itself shows every line unchanged: no line is added
/// or removed.
pub proof fn lemma_diff_of_identical_files(lines: Seq<Seq<char>>)
    ensures
        spec_diff(lines, lines) == all_context(lines),
{
    lemma_lcs_pairs_self(lines, lines.len());
    lemma_script_self(lines, 0);
    assert(Seq::new((lines.len() - 0) as nat, |t: int| DiffLineView::Context(lines[0 + t]))
        =~= all_context(lines));
}

/// The kind of change of a file, from whether it has content before and after.
pub open spec fn content_change_kind(old_present: bool, new_present: bool) -> ChangeKind {
    if !old_present && new_present {
        ChangeKind::Added
    } else if old_present && !new_present {
        ChangeKind::Deleted
    } else {
        ChangeKind::Modified
    }
}

/// The text of optional file content; absent content reads as empty.
pub open spec fn content_text(c: Option<String>) -> Seq<char> {
    match c {
        Some(t) => t@,
        None => Seq::empty(),
    }
}

/// Builds the diff of one file from its content in the parent commit and in
/// the commit (`None` where the file does not exist or is not a readable file).
pub fn build_file_diff(path: &str, old_content: Option<String>, new_content: Option<String>) -> (res:
    FileDiff)
    requires
        content_text(old_content).len() + 2 < usize::MAX,
        content_text(new_content).len() + 2 < usize::MAX,
    ensures
        res.path@ == path@,
        res.kind == content_change_kind(old_content is Some, new_content is Some),
        diff_views(res.lines@) == spec_diff(
            spec_lines(content_text(old_content)),
            spec_lines(content_text(new_content)),
        ),
{
    let kind = match (&old_content, &new_content) {
        (None, Some(_)) => ChangeKind::Added,
        (Some(_), None) => ChangeKind::Deleted,
        _ => ChangeKind::Modified,
    };
    let old_lines = match &old_content {
        Some(t) => split_lines(t.as_str()),
        None => split_lines(""),
    };
    let new_lines = match &new_content {
        Some(t) => split_lines(t.as_str()),
        None => split_lines(""),
    };
    proof {
        reveal_strlit("");
    }
    let lines = compute_diff(&old_lines, &new_lines);
    FileDiff { path: path.to_owned(), kind, lines }
}

/// The kind of change of a tree entry: present on both sides is a
/// modification, absent before is an addition, anything else a deletion.
pub fn tree_entry_change_kind(before_present: bool, after_present: bool) -> (res: ChangeKind)
    ensures
        res == (if before_present && after_present {
            ChangeKind::Modified
        } else if !before_present {
            ChangeKind::Added
        } else {
            ChangeKind::Deleted
        }),
{
    if before_present && after_present {
        ChangeKind::Modified
    } else if !before_present {
        ChangeKind::Added
    } else {
        ChangeKind::Deleted
    }
}

} // verus!
