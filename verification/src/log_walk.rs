//! Collecting the commit log: a depth-first walk from the heads through the
//! parents, up to a limit, then the commits newest first. Reading a commit from
//! the store happens outside; the walk says which commit to read next and is
//! handed each commit that was read.

use vstd::prelude::*;

use crate::repo::{clone_strings, commit_views, texts, CommitInfo, CommitView};

verus! {

/// The state of a walk.
pub struct WalkView {
    pub limit: nat,
    /// The heads the walk starts from.
    pub heads: Seq<Seq<char>>,
    /// Commits still to visit; the next one is last.
    pub stack: Seq<Seq<char>>,
    /// Commits visited, in order.
    pub seen: Seq<Seq<char>>,
    /// Commits collected, in order.
    pub commits: Seq<CommitView>,
    /// The commit asked for and not yet collected.
    pub pending: Option<Seq<char>>,
}

/// The walk after asking for the next commit to read, and that commit: none
/// once the limit is reached or nothing is left to visit; commits already
/// visited are passed over. The commit asked for is pending until collected.
pub open spec fn walk_next(v: WalkView) -> (WalkView, Option<Seq<char>>)
    decreases v.stack.len(),
{
    if v.commits.len() >= v.limit || v.stack.len() == 0 {
        (v, None)
    } else {
        let id = v.stack.last();
        let rest = WalkView { stack: v.stack.drop_last(), ..v };
        if v.seen.contains(id) {
            walk_next(rest)
        } else {
            (WalkView { seen: v.seen.push(id), pending: Some(id), ..rest }, Some(id))
        }
    }
}

/// The walk after the pending commit was read: it is collected, and its
/// parents are visited next, first parent first.
pub open spec fn walk_record(v: WalkView, c: CommitView) -> WalkView {
    WalkView {
        commits: v.commits.push(c),
        stack: v.stack + c.parent_ids.reverse(),
        pending: None,
        ..v
    }
}

/// `id` is one of the heads, or a parent of one of the commits `earlier`.
pub open spec fn reached_by(heads: Seq<Seq<char>>, earlier: Seq<CommitView>, id: Seq<char>) -> bool {
    ||| heads.contains(id)
    ||| exists|i: int| 0 <= i < earlier.len() && (#[trigger] earlier[i]).parent_ids.contains(id)
}

/// The ids of the collected commits, in order.
pub open spec fn collected_ids(v: WalkView) -> Seq<Seq<char>> {
    v.commits.map_values(|c: CommitView| c.commit_id)
}

/// What holds of a walk at every step: no commit is collected twice; every
/// collected commit was visited, and is a head or a parent of a commit
/// collected before it; at most `limit` commits are collected; every commit
/// still to visit, and the pending one, is a head or a parent of a collected
/// commit; the pending commit was visited, is not collected yet, and there is
/// room for it; every head, and every parent of a collected commit, is
/// visited or still on the stack.
pub open spec fn walk_sound(v: WalkView) -> bool {
    &&& walk_covers(v)
    &&& collected_ids(v).no_duplicates()
    &&& forall|k: int| 0 <= k < v.commits.len() ==> v.seen.contains(#[trigger] v.commits[k].commit_id)
    &&& v.commits.len() <= v.limit
    &&& forall|k: int|
        0 <= k < v.commits.len() ==> reached_by(v.heads, v.commits.take(k), #[trigger] v.commits[k].commit_id)
    &&& forall|s: int| 0 <= s < v.stack.len() ==> reached_by(v.heads, v.commits, #[trigger] v.stack[s])
    &&& v.pending matches Some(p) ==> {
        &&& reached_by(v.heads, v.commits, p)
        &&& !collected_ids(v).contains(p)
        &&& v.seen.contains(p)
        &&& v.commits.len() < v.limit
    }
}

/// Asking for the next commit never asks for one already visited, and asks
/// only while fewer commits than the limit are collected: no commit is read
/// twice, and a walk collects at most `limit` commits. The commit asked for
/// comes off the stack, whose rest stays as it was.
pub proof fn lemma_walk_next_fresh(v: WalkView)
    ensures
        walk_next(v).0.commits == v.commits,
        walk_next(v).0.limit == v.limit,
        walk_next(v).0.heads == v.heads,
        walk_next(v).0.stack.len() <= v.stack.len(),
        walk_next(v).0.stack == v.stack.take(walk_next(v).0.stack.len() as int),
        match walk_next(v).1 {
            Some(id) => {
                &&& !v.seen.contains(id)
                &&& walk_next(v).0.seen == v.seen.push(id)
                &&& v.commits.len() < v.limit
                &&& walk_next(v).0.pending == Some(id)
                &&& walk_next(v).0.stack.len() < v.stack.len()
                &&& v.stack[walk_next(v).0.stack.len() as int] == id
            },
            None => walk_next(v).0.seen == v.seen && walk_next(v).0.pending == v.pending,
        },
        v.seen.no_duplicates() ==> walk_next(v).0.seen.no_duplicates(),
    decreases v.stack.len(),
{
    if v.commits.len() >= v.limit || v.stack.len() == 0 {
        assert(v.stack.take(v.stack.len() as int) =~= v.stack);
    } else {
        let id = v.stack.last();
        let rest = WalkView { stack: v.stack.drop_last(), ..v };
        if v.seen.contains(id) {
            lemma_walk_next_fresh(rest);
            let l = walk_next(rest).0.stack.len() as int;
            assert(v.stack.drop_last().take(l) =~= v.stack.take(l));
            if walk_next(rest).1 is Some {
                assert(v.stack.drop_last()[l] == v.stack[l]);
            }
        } else {
            assert(v.stack.drop_last() =~= v.stack.take(v.stack.len() - 1));
            let s2 = v.seen.push(id);
            if v.seen.no_duplicates() {
                assert forall|a: int, b: int| 0 <= a < b < s2.len() implies s2[a] != s2[b] by {
                    if b == v.seen.len() {
                        assert(s2[a] == v.seen[a]);
                    }
                }
            }
        }
    }
}

/// A walk ends only when there is nothing left to visit or the limit is
/// reached: when asking for the next commit gives none while fewer commits
/// than the limit are collected, every commit on the stack was visited
/// already, and the stack is used up. So every head, and every parent of a
/// collected commit, is visited before the walk stops short of its limit.
pub proof fn lemma_walk_ends_when_done(v: WalkView)
    ensures
        walk_next(v).1 is None && v.commits.len() < v.limit ==> {
            &&& forall|s: int| 0 <= s < v.stack.len() ==> v.seen.contains(#[trigger] v.stack[s])
            &&& walk_next(v).0.stack.len() == 0
        },
        walk_next(v).1 is Some ==> forall|s: int|
            walk_next(v).0.stack.len() < s < v.stack.len() ==> v.seen.contains(#[trigger] v.stack[s]),
    decreases v.stack.len(),
{
    if v.commits.len() >= v.limit || v.stack.len() == 0 {
    } else {
        let id = v.stack.last();
        let rest = WalkView { stack: v.stack.drop_last(), ..v };
        if v.seen.contains(id) {
            lemma_walk_ends_when_done(rest);
            lemma_walk_next_fresh(rest);
            assert forall|s: int| 0 <= s < v.stack.len() - 1 implies #[trigger] v.stack[s]
                == rest.stack[s] by {}
            if walk_next(v).1 is None {
                assert forall|s: int| 0 <= s < v.stack.len() implies v.seen.contains(
                    #[trigger] v.stack[s],
                ) by {
                    if s < v.stack.len() - 1 {
                        assert(v.stack[s] == rest.stack[s]);
                    }
                }
            } else {
                assert forall|s: int|
                    walk_next(v).0.stack.len() < s < v.stack.len() implies v.seen.contains(
                    #[trigger] v.stack[s],
                ) by {
                    if s < v.stack.len() - 1 {
                        assert(v.stack[s] == rest.stack[s]);
                    }
                }
            }
        }
    }
}

proof fn lemma_reached_push(heads: Seq<Seq<char>>, earlier: Seq<CommitView>, c: CommitView, id: Seq<char>)
    ensures
        reached_by(heads, earlier, id) ==> reached_by(heads, earlier.push(c), id),
        c.parent_ids.contains(id) ==> reached_by(heads, earlier.push(c), id),
{
    let e2 = earlier.push(c);
    if exists|i: int| 0 <= i < earlier.len() && (#[trigger] earlier[i]).parent_ids.contains(id) {
        let i = choose|i: int| 0 <= i < earlier.len() && (#[trigger] earlier[i]).parent_ids.contains(id);
        assert(e2[i] == earlier[i]);
    }
    if c.parent_ids.contains(id) {
        assert(e2[earlier.len() as int] == c);
    }
}

/// Every commit reached from the heads so far (a head, or a parent of a
/// collected commit) is visited already or still on the stack.
pub open spec fn walk_covers(v: WalkView) -> bool {
    forall|x: Seq<char>|
        #[trigger] reached_by(v.heads, v.commits, x) ==> v.seen.contains(x) || v.stack.contains(x)
}

proof fn lemma_reached_split(heads: Seq<Seq<char>>, earlier: Seq<CommitView>, c: CommitView, x: Seq<char>)
    requires
        reached_by(heads, earlier.push(c), x),
    ensures
        reached_by(heads, earlier, x) || c.parent_ids.contains(x),
{
    let e2 = earlier.push(c);
    if !heads.contains(x) {
        let i = choose|i: int| 0 <= i < e2.len() && (#[trigger] e2[i]).parent_ids.contains(x);
        if i < earlier.len() {
            assert(earlier[i] == e2[i]);
        }
    }
}

/// No commit reached from the heads is left out of a walk: a walk starts with
/// every head on its stack; asking for the next commit and collecting the
/// pending one keep every head, and every parent of a collected commit,
/// visited or on the stack; so when asking gives nothing while fewer commits
/// than the limit are collected, every one of them has been visited.
pub proof fn lemma_walk_covers(v: WalkView, c: CommitView)
    ensures
        walk_covers(
            WalkView {
                stack: v.heads.reverse(),
                seen: Seq::empty(),
                commits: Seq::empty(),
                pending: None,
                ..v
            },
        ),
        walk_covers(v) ==> walk_covers(walk_next(v).0),
        walk_covers(v) ==> walk_covers(walk_record(v, c)),
        walk_covers(v) && walk_next(v).1 is None && v.commits.len() < v.limit ==> forall|x: Seq<char>|
            #[trigger] reached_by(v.heads, v.commits, x) ==> walk_next(v).0.seen.contains(x),
{
    let v0 = WalkView {
        stack: v.heads.reverse(),
        seen: Seq::empty(),
        commits: Seq::empty(),
        pending: None,
        ..v
    };
    assert forall|x: Seq<char>| #[trigger] reached_by(v0.heads, v0.commits, x) implies v0.seen.contains(
        x,
    ) || v0.stack.contains(x) by {
        let i = choose|i: int| 0 <= i < v.heads.len() && v.heads[i] == x;
        assert(v0.stack[v.heads.len() - 1 - i] == x);
    }
    lemma_walk_next_fresh(v);
    lemma_walk_ends_when_done(v);
    let w = walk_next(v).0;
    let l = w.stack.len() as int;
    if walk_covers(v) {
        assert forall|x: Seq<char>| #[trigger] reached_by(w.heads, w.commits, x) implies w.seen.contains(
            x,
        ) || w.stack.contains(x) by {
            assert(reached_by(v.heads, v.commits, x));
            if v.seen.contains(x) {
                let j = choose|j: int| 0 <= j < v.seen.len() && v.seen[j] == x;
                if walk_next(v).1 is Some {
                    assert(w.seen[j] == v.seen[j]);
                }
            } else {
                let s = choose|s: int| 0 <= s < v.stack.len() && v.stack[s] == x;
                if s < l {
                    assert(w.stack[s] == v.stack[s]);
                } else if walk_next(v).1 is Some {
                    assert(s == l);
                    assert(w.seen[v.seen.len() as int] == x);
                } else if v.commits.len() >= v.limit {
                    assert(w == v);
                }
            }
        }
        let r = walk_record(v, c);
        assert forall|x: Seq<char>| #[trigger] reached_by(r.heads, r.commits, x) implies r.seen.contains(
            x,
        ) || r.stack.contains(x) by {
            lemma_reached_split(v.heads, v.commits, c, x);
            if reached_by(v.heads, v.commits, x) {
                if v.stack.contains(x) {
                    let s = choose|s: int| 0 <= s < v.stack.len() && v.stack[s] == x;
                    assert(r.stack[s] == v.stack[s]);
                }
            } else {
                let t = choose|t: int| 0 <= t < c.parent_ids.len() && c.parent_ids[t] == x;
                let rt = c.parent_ids.len() - 1 - t;
                assert(c.parent_ids.reverse()[rt] == x);
                assert(r.stack[v.stack.len() + rt] == x);
            }
        }
        if walk_next(v).1 is None && v.commits.len() < v.limit {
            assert forall|x: Seq<char>| #[trigger] reached_by(v.heads, v.commits, x) implies w.seen.contains(
                x,
            ) by {
                if !v.seen.contains(x) {
                    let s = choose|s: int| 0 <= s < v.stack.len() && v.stack[s] == x;
                    assert(v.seen.contains(v.stack[s]));
                }
            }
        }
    }
}

/// A walk holds no commit twice, at most `limit` commits, and only commits
/// reached from its heads: a walk starts sound, asking for the next commit
/// keeps it sound, and so does collecting the commit that is pending.
pub proof fn lemma_walk_sound(v: WalkView, c: CommitView)
    ensures
        walk_sound(
            WalkView {
                stack: v.heads.reverse(),
                seen: Seq::empty(),
                commits: Seq::empty(),
                pending: None,
                ..v
            },
        ),
        walk_sound(v) ==> walk_sound(walk_next(v).0),
        walk_sound(v) && v.pending == Some(c.commit_id) ==> walk_sound(walk_record(v, c)),
{
    lemma_walk_covers(v, c);
    let v0 = WalkView {
        stack: v.heads.reverse(),
        seen: Seq::empty(),
        commits: Seq::empty(),
        pending: None,
        ..v
    };
    assert(collected_ids(v0) =~= Seq::<Seq<char>>::empty());
    assert forall|s: int| 0 <= s < v0.stack.len() implies reached_by(
        v0.heads,
        v0.commits,
        #[trigger] v0.stack[s],
    ) by {
        assert(v0.stack[s] == v.heads[v.heads.len() - 1 - s]);
    }
    lemma_walk_next_fresh(v);
    let w = walk_next(v).0;
    if walk_sound(v) {
        assert(collected_ids(w) == collected_ids(v));
        assert forall|k: int| 0 <= k < w.commits.len() implies w.seen.contains(
            #[trigger] w.commits[k].commit_id,
        ) by {
            assert(v.seen.contains(v.commits[k].commit_id));
            if walk_next(v).1 is Some {
                let j = choose|j: int| 0 <= j < v.seen.len() && v.seen[j] == v.commits[k].commit_id;
                assert(w.seen[j] == v.seen[j]);
            }
        }
        assert forall|s: int| 0 <= s < w.stack.len() implies reached_by(
            w.heads,
            w.commits,
            #[trigger] w.stack[s],
        ) by {
            assert(w.stack[s] == v.stack[s]);
        }
        if walk_next(v).1 is Some {
            let id = walk_next(v).1->0;
            let l = w.stack.len() as int;
            assert(reached_by(v.heads, v.commits, v.stack[l]));
            assert(!collected_ids(v).contains(id)) by {
                if collected_ids(v).contains(id) {
                    let k = choose|k: int| 0 <= k < collected_ids(v).len() && collected_ids(v)[k] == id;
                    assert(v.seen.contains(v.commits[k].commit_id));
                }
            }
            assert(w.seen[v.seen.len() as int] == id);
        } else {
            if v.pending is Some {
                let p = v.pending->0;
                assert(w.seen == v.seen);
            }
        }
        assert(walk_sound(w));
        if v.pending == Some(c.commit_id) {
            let r = walk_record(v, c);
            let ids = collected_ids(v);
            assert(collected_ids(r) =~= ids.push(c.commit_id));
            assert forall|a: int, b: int| 0 <= a < b < collected_ids(r).len() implies collected_ids(
                r,
            )[a] != collected_ids(r)[b] by {
                if b == ids.len() {
                    assert(collected_ids(r)[a] == ids[a]);
                    assert(ids.contains(ids[a]));
                } else {
                    assert(collected_ids(r)[a] == ids[a]);
                    assert(collected_ids(r)[b] == ids[b]);
                }
            }
            assert forall|k: int| 0 <= k < r.commits.len() implies r.seen.contains(
                #[trigger] r.commits[k].commit_id,
            ) by {
                if k < v.commits.len() {
                    assert(r.commits[k] == v.commits[k]);
                }
            }
            assert forall|k: int| 0 <= k < r.commits.len() implies reached_by(
                r.heads,
                r.commits.take(k),
                #[trigger] r.commits[k].commit_id,
            ) by {
                if k < v.commits.len() {
                    assert(r.commits[k] == v.commits[k]);
                    assert(r.commits.take(k) =~= v.commits.take(k));
                } else {
                    assert(r.commits.take(k) =~= v.commits);
                }
            }
            assert forall|s: int| 0 <= s < r.stack.len() implies reached_by(
                r.heads,
                r.commits,
                #[trigger] r.stack[s],
            ) by {
                if s < v.stack.len() {
                    assert(r.stack[s] == v.stack[s]);
                    lemma_reached_push(v.heads, v.commits, c, v.stack[s]);
                } else {
                    let t = s - v.stack.len();
                    assert(r.stack[s] == c.parent_ids.reverse()[t]);
                    assert(c.parent_ids.reverse()[t] == c.parent_ids[c.parent_ids.len() - 1 - t]);
                    assert(c.parent_ids.contains(r.stack[s]));
                    lemma_reached_push(v.heads, v.commits, c, r.stack[s]);
                }
            }
        }
    }
}

/// A walk of the commit graph.
#[derive(Debug)]
pub struct LogWalk {
    limit: usize,
    heads: Vec<String>,
    stack: Vec<String>,
    seen: Vec<String>,
    commits: Vec<CommitInfo>,
    pending: Option<String>,
}

/// The text of an optional string.
pub open spec fn opt_text(s: Option<String>) -> Option<Seq<char>> {
    match s {
        Some(t) => Some(t@),
        None => None,
    }
}

/// The state that a walk's fields stand for.
pub open spec fn walk_of(
    limit: usize,
    heads: Seq<String>,
    stack: Seq<String>,
    seen: Seq<String>,
    commits: Seq<CommitInfo>,
    pending: Option<String>,
) -> WalkView {
    WalkView {
        limit: limit as nat,
        heads: texts(heads),
        stack: texts(stack),
        seen: texts(seen),
        commits: commit_views(commits),
        pending: opt_text(pending),
    }
}

impl View for LogWalk {
    type V = WalkView;

    closed spec fn view(&self) -> WalkView {
        walk_of(self.limit, self.heads@, self.stack@, self.seen@, self.commits@, self.pending)
    }
}

/// Whether `s` holds `x`.
fn contains_string(s: &Vec<String>, x: &String) -> (res: bool)
    ensures
        res == texts(s@).contains(x@),
{
    let mut i: usize = 0;
    while i < s.len()
        invariant
            i <= s@.len(),
            forall|k: int| 0 <= k < i ==> s@[k]@ != x@,
        decreases s@.len() - i,
    {
        if s[i] == *x {
            proof {
                assert(texts(s@)[i as int] == x@);
            }
            return true;
        }
        i = i + 1;
    }
    proof {
        if texts(s@).contains(x@) {
            let k = choose|k: int| 0 <= k < texts(s@).len() && texts(s@)[k] == x@;
            assert(s@[k]@ == x@);
        }
    }
    false
}

impl LogWalk {
    /// Every walk is sound.
    #[verifier::type_invariant]
    spec fn sound(self) -> bool {
        walk_sound(self@)
    }

    /// The commits collected so far.
    pub closed spec fn spec_commits(&self) -> Seq<CommitInfo> {
        self.commits@
    }

    /// The view lists the views of the collected commits.
    pub proof fn lemma_commits_view(&self)
        ensures
            self@.commits == commit_views(self.spec_commits()),
            self@.limit == self.spec_limit(),
    {
    }

    /// The most commits the walk collects.
    pub closed spec fn spec_limit(&self) -> nat {
        self.limit as nat
    }

    /// A walk with nothing to do.
    fn blank() -> (res: LogWalk)
    {
        let res = LogWalk {
            limit: 0,
            heads: Vec::new(),
            stack: Vec::new(),
            seen: Vec::new(),
            commits: Vec::new(),
            pending: None,
        };
        proof {
            lemma_walk_sound(res@, arbitrary());
            assert(texts(res.stack@) =~= texts(res.heads@).reverse());
            assert(texts(res.seen@) =~= Seq::<Seq<char>>::empty());
            assert(commit_views(res.commits@) =~= Seq::<CommitView>::empty());
        }
        res
    }

    /// A walk from `heads`, in order, collecting at most `limit` commits.
    pub fn new(heads: &Vec<String>, limit: usize) -> (res: LogWalk)
        ensures
            res@ == (WalkView {
                limit: limit as nat,
                heads: texts(heads@),
                stack: texts(heads@).reverse(),
                seen: Seq::empty(),
                commits: Seq::empty(),
                pending: None,
            }),
    {
        let mut stack: Vec<String> = Vec::new();
        let mut k: usize = heads.len();
        while k > 0
            invariant
                k <= heads@.len(),
                texts(stack@) == texts(heads@).reverse().take(heads@.len() - k),
            decreases k,
        {
            k = k - 1;
            let ghost before = stack@;
            stack.push(heads[k].clone());
            proof {
                assert(texts(stack@) =~= texts(before).push(heads@[k as int]@));
                assert(texts(heads@).reverse()[heads@.len() - 1 - k] == heads@[k as int]@);
                assert(texts(stack@) =~= texts(heads@).reverse().take(heads@.len() - k));
            }
        }
        let heads_copy = clone_strings(heads);
        proof {
            assert(texts(stack@) =~= texts(heads@).reverse());
            let v = walk_of(limit, heads_copy@, stack@, Seq::empty(), Seq::empty(), None);
            assert(texts(Seq::<String>::empty()) =~= Seq::<Seq<char>>::empty());
            assert(commit_views(Seq::<CommitInfo>::empty()) =~= Seq::<CommitView>::empty());
            lemma_walk_sound(v, arbitrary());
            assert(v == WalkView {
                stack: v.heads.reverse(),
                seen: Seq::empty(),
                commits: Seq::empty(),
                pending: None,
                ..v
            });
        }
        LogWalk {
            limit,
            heads: heads_copy,
            stack,
            seen: Vec::new(),
            commits: Vec::new(),
            pending: None,
        }
    }

    /// Whether another commit can be collected: fewer than `limit` are.
    pub fn has_room(&self) -> (res: bool)
        ensures
            res == (self@.commits.len() < self@.limit),
    {
        self.commits.len() < self.limit
    }

    /// Whether `id` is the commit asked for and not yet collected.
    pub fn is_pending(&self, id: &String) -> (res: bool)
        ensures
            res == (self@.pending == Some(id@)),
    {
        match &self.pending {
            Some(p) => *p == *id,
            None => false,
        }
    }

    /// The next commit to read, or `None` when the walk is over.
    pub fn next_request(&mut self) -> (res: Option<String>)
        ensures
            final(self)@ == walk_next(old(self)@).0,
            match res {
                Some(id) => walk_next(old(self)@).1 == Some(id@),
                None => walk_next(old(self)@).1 is None,
            },
            res is None && old(self)@.commits.len() < old(self)@.limit ==> {
                &&& final(self)@.stack.len() == 0
                &&& forall|s: int|
                    0 <= s < old(self)@.stack.len() ==> old(self)@.seen.contains(
                        #[trigger] old(self)@.stack[s],
                    )
            },
            res is None && old(self)@.commits.len() < old(self)@.limit ==> forall|x: Seq<char>|
                #[trigger] reached_by(final(self)@.heads, final(self)@.commits, x)
                    ==> final(self)@.seen.contains(x),
    {
        proof {
            lemma_walk_ends_when_done(old(self)@);
        }
        let mut w = LogWalk::blank();
        std::mem::swap(self, &mut w);
        proof {
            use_type_invariant(&w);
        }
        let ghost v0 = w@;
        let LogWalk { limit, heads, mut stack, mut seen, commits, mut pending } = w;
        let mut result: Option<String> = None;
        loop
            invariant_except_break
                walk_next(walk_of(limit, heads@, stack@, seen@, commits@, pending)) == walk_next(v0),
                result is None,
            ensures
                walk_of(limit, heads@, stack@, seen@, commits@, pending) == walk_next(v0).0,
                match result {
                    Some(id) => walk_next(v0).1 == Some(id@),
                    None => walk_next(v0).1 is None,
                },
            decreases stack@.len(),
        {
            let ghost before = walk_of(limit, heads@, stack@, seen@, commits@, pending);
            if commits.len() >= limit {
                break;
            }
            match stack.pop() {
                None => {
                    break;
                },
                Some(id) => {
                    proof {
                        assert(texts(stack@) =~= before.stack.drop_last());
                        assert(id@ == before.stack.last());
                    }
                    if !contains_string(&seen, &id) {
                        seen.push(id.clone());
                        pending = Some(id.clone());
                        proof {
                            assert(texts(seen@) =~= before.seen.push(id@));
                        }
                        result = Some(id);
                        break;
                    }
                },
            }
        }
        proof {
            lemma_walk_sound(v0, arbitrary());
            lemma_walk_covers(v0, arbitrary());
        }
        *self = LogWalk { limit, heads, stack, seen, commits, pending };
        result
    }

    /// Collects the pending commit, which was read, and visits its parents next.
    pub fn record(&mut self, info: CommitInfo)
        requires
            old(self)@.pending == Some(info.commit_id@),
        ensures
            final(self)@ == walk_record(old(self)@, info@),
    {
        let mut w = LogWalk::blank();
        std::mem::swap(self, &mut w);
        proof {
            use_type_invariant(&w);
        }
        let ghost before = w@;
        let LogWalk { limit, heads, mut stack, seen, mut commits, pending: _ } = w;
        let mut k: usize = info.parent_ids.len();
        while k > 0
            invariant
                k <= info.parent_ids@.len(),
                texts(stack@) == before.stack + texts(info.parent_ids@).reverse().take(
                    info.parent_ids@.len() - k,
                ),
            decreases k,
        {
            k = k - 1;
            let ghost st = texts(stack@);
            stack.push(info.parent_ids[k].clone());
            proof {
                assert(texts(stack@) =~= st.push(info.parent_ids@[k as int]@));
                assert(texts(info.parent_ids@).reverse()[info.parent_ids@.len() - 1 - k]
                    == info.parent_ids@[k as int]@);
                assert(texts(stack@) =~= before.stack + texts(
                    info.parent_ids@,
                ).reverse().take(info.parent_ids@.len() - k));
            }
        }
        proof {
            assert(texts(info.parent_ids@).reverse().take(info.parent_ids@.len() as int)
                =~= texts(info.parent_ids@).reverse());
        }
        let ghost cs = commit_views(commits@);
        commits.push(info);
        proof {
            assert(commit_views(commits@) =~= cs.push(info@));
            lemma_walk_sound(before, info@);
            assert(walk_of(limit, heads@, stack@, seen@, commits@, None) == walk_record(before, info@));
        }
        *self = LogWalk { limit, heads, stack, seen, commits, pending: None };
    }

    /// The commits collected, newest first (commits of the same time in the
    /// order they were collected), at most `limit` of them. No commit is there
    /// twice, and each is a head or a parent of a commit collected before it.
    pub fn finish(self) -> (res: Vec<CommitInfo>)
        ensures
            walk_sound(self@),
            forall|a: int, b: int|
                0 <= a < b < res@.len() ==> (#[trigger] res@[a]).commit_id@ != (
                #[trigger] res@[b]).commit_id@,
            exists|order: Seq<int>|
                {
                    &&& is_time_ordering(commit_views(self.spec_commits()), order)
                    &&& res@.len() == (if order.len() < self.spec_limit() {
                        order.len()
                    } else {
                        self.spec_limit()
                    })
                    &&& forall|k: int|
                        0 <= k < res@.len() ==> #[trigger] res@[k] == self.spec_commits()[order[k]]
                    &&& forall|k: int|
                        0 <= k < res@.len() ==> reached_by(
                            self@.heads,
                            self@.commits.take(#[trigger] order[k]),
                            res@[k].commit_id@,
                        )
                },
    {
        proof {
            use_type_invariant(&self);
        }
        let ghost v = self@;
        let limit = self.limit;
        let ghost commits = self.commits@;
        proof {
            assert(commits == self.spec_commits());
            assert(limit as nat == self.spec_limit());
        }
        let LogWalk { limit: _, heads: _, stack: _, seen: _, commits: all, pending: _ } = self;
        let mut sorted = sort_newest_first(all);
        let ghost full = sorted@;
        sorted.truncate(limit);
        proof {
            let order = choose|order: Seq<int>|
                {
                    &&& is_time_ordering(commit_views(commits), order)
                    &&& full.len() == commits.len()
                    &&& forall|k: int| 0 <= k < full.len() ==> #[trigger] full[k] == commits[order[k]]
                };
            assert(v.commits == commit_views(commits));
            assert forall|k: int| 0 <= k < sorted@.len() implies #[trigger] sorted@[k]
                == commits[order[k]] by {
                assert(sorted@[k] == full[k]);
            }
            assert forall|k: int| 0 <= k < sorted@.len() implies reached_by(
                v.heads,
                v.commits.take(#[trigger] order[k]),
                sorted@[k].commit_id@,
            ) by {
                assert(sorted@[k] == full[k]);
                assert(0 <= order[k] < commits.len());
                assert(sorted@[k] == commits[order[k]]);
                assert(v.commits[order[k]] == commits[order[k]]@);
                assert(v.commits[order[k]].commit_id == sorted@[k].commit_id@);
            }
            assert forall|a: int, b: int| 0 <= a < b < sorted@.len() implies (
            #[trigger] sorted@[a]).commit_id@ != (#[trigger] sorted@[b]).commit_id@ by {
                assert(sorted@[a] == commits[order[a]]);
                assert(sorted@[b] == commits[order[b]]);
                assert(order[a] != order[b]);
                assert(collected_ids(v)[order[a]] == commits[order[a]].commit_id@);
                assert(collected_ids(v)[order[b]] == commits[order[b]].commit_id@);
            }
            assert({
                &&& is_time_ordering(commit_views(commits), order)
                &&& sorted@.len() == (if order.len() < limit as nat {
                    order.len()
                } else {
                    limit as nat
                })
                &&& forall|k: int| 0 <= k < sorted@.len() ==> #[trigger] sorted@[k] == commits[order[k]]
                &&& forall|k: int|
                    0 <= k < sorted@.len() ==> reached_by(
                        v.heads,
                        v.commits.take(#[trigger] order[k]),
                        sorted@[k].commit_id@,
                    )
            });
        }
        sorted
    }
}

/// The instant of a commit, by which the log is ordered.
pub open spec fn time_key(c: CommitView) -> int {
    c.timestamp.millis as int
}

/// `order` lists every position of `commits` once, newest commit first, and
/// keeps commits of the same time in the order they come in.
pub open spec fn is_time_ordering(commits: Seq<CommitView>, order: Seq<int>) -> bool {
    &&& order.len() == commits.len()
    &&& forall|k: int| 0 <= k < order.len() ==> 0 <= #[trigger] order[k] < commits.len()
    &&& forall|a: int, b: int| 0 <= a < b < order.len() ==> #[trigger] order[a] != #[trigger] order[b]
    &&& forall|a: int, b: int|
        0 <= a < b < order.len() ==> time_key(commits[#[trigger] order[a]]) > time_key(
            commits[#[trigger] order[b]],
        ) || (time_key(commits[order[a]]) == time_key(commits[order[b]]) && order[a] < order[b])
}

/// Sorts commits newest first; commits of the same time keep their order.
pub fn sort_newest_first(v: Vec<CommitInfo>) -> (res: Vec<CommitInfo>)
    ensures
        exists|order: Seq<int>|
            {
                &&& is_time_ordering(commit_views(v@), order)
                &&& res@.len() == v@.len()
                &&& forall|k: int| 0 <= k < res@.len() ==> #[trigger] res@[k] == v@[order[k]]
            },
{
    let ghost orig = v@;
    let ghost cv = commit_views(v@);
    let n = v.len();
    let mut res = v;
    let ghost mut perm: Seq<int> = Seq::new(n as nat, |k: int| k);
    let mut i: usize = 0;
    while i < n
        invariant
            n == orig.len(),
            cv == commit_views(orig),
            i <= n,
            res@.len() == n,
            perm.len() == n,
            forall|k: int| 0 <= k < n ==> #[trigger] res@[k] == orig[perm[k]],
            forall|k: int| i <= k < n ==> #[trigger] perm[k] == k,
            forall|k: int| 0 <= k < i ==> 0 <= #[trigger] perm[k] < i,
            forall|a: int, b: int| 0 <= a < b < i ==> #[trigger] perm[a] != #[trigger] perm[b],
            forall|a: int, b: int|
                0 <= a < b < i ==> time_key(cv[#[trigger] perm[a]]) > time_key(
                    cv[#[trigger] perm[b]],
                ) || (time_key(cv[perm[a]]) == time_key(cv[perm[b]]) && perm[a] < perm[b]),
        decreases n - i,
    {
        let ghost old_res = res@;
        let ghost old_perm = perm;
        let x = res.remove(i);
        proof {
            assert(x == orig[i as int]);
            assert(cv[i as int] == x@);
        }
        let mut j: usize = i;
        while j > 0 && res[j - 1].timestamp.millis < x.timestamp.millis
            invariant
                j <= i,
                i < n,
                old_res.len() == n,
                res@ == old_res.remove(i as int),
                forall|q: int| j <= q < i ==> time_key(#[trigger] res@[q]@) < time_key(x@),
            decreases j,
        {
            j = j - 1;
        }
        res.insert(j, x);
        proof {
            perm = old_perm.remove(i as int).insert(j as int, i as int);
            assert forall|k: int| 0 <= k < n implies #[trigger] res@[k] == orig[perm[k]] by {
                if k < j {
                    assert(res@[k] == old_res[k]);
                    assert(perm[k] == old_perm[k]);
                } else if k > j && k <= i {
                    assert(res@[k] == old_res[k - 1]);
                    assert(perm[k] == old_perm[k - 1]);
                } else if k > i {
                    assert(res@[k] == old_res[k]);
                    assert(perm[k] == old_perm[k]);
                } else {
                    assert(res@[k] == x);
                }
            }
            assert forall|k: int| 0 <= k < i + 1 implies 0 <= #[trigger] perm[k] < i + 1 by {
                if k < j {
                    assert(perm[k] == old_perm[k]);
                } else if k > j {
                    assert(perm[k] == old_perm[k - 1]);
                }
            }
            assert forall|k: int| i + 1 <= k < n implies #[trigger] perm[k] == k by {
                assert(perm[k] == old_perm[k]);
            }
            assert forall|a: int, b: int| 0 <= a < b < i + 1 implies #[trigger] perm[a]
                != #[trigger] perm[b] by {
                let oa = if a < j { a } else { a - 1 };
                let ob = if b < j { b } else { b - 1 };
                if a != j && b != j {
                    assert(perm[a] == old_perm[oa]);
                    assert(perm[b] == old_perm[ob]);
                } else if a == j {
                    assert(perm[b] == old_perm[ob]);
                } else {
                    assert(perm[a] == old_perm[oa]);
                }
            }
            assert forall|a: int, b: int| 0 <= a < b < i + 1 implies time_key(
                cv[#[trigger] perm[a]],
            ) > time_key(cv[#[trigger] perm[b]]) || (time_key(cv[perm[a]]) == time_key(cv[perm[b]])
                && perm[a] < perm[b]) by {
                let oa = if a < j { a } else { a - 1 };
                let ob = if b < j { b } else { b - 1 };
                if a != j && b != j {
                    assert(perm[a] == old_perm[oa]);
                    assert(perm[b] == old_perm[ob]);
                } else if a == j {
                    // b sits after the inserted commit: it was passed over.
                    assert(perm[b] == old_perm[ob]);
                    assert(res@[b] == old_res[ob]);
                    assert(old_res.remove(i as int)[ob] == old_res[ob]);
                    assert(cv[perm[b]] == res@[b]@);
                } else {
                    // a sits before the inserted commit.
                    assert(perm[a] == old_perm[oa]);
                    assert(j > 0);
                    let last = j - 1;
                    assert(old_res.remove(i as int)[last] == old_res[last]);
                    assert(time_key(old_res[last]@) >= time_key(x@));
                    assert(cv[old_perm[last]] == old_res[last]@);
                    if a < last {
                        assert(time_key(cv[old_perm[a]]) >= time_key(cv[old_perm[last]]));
                    }
                    assert(perm[b] == i);
                }
            }
        }
        i = i + 1;
    }
    proof {
        assert forall|k: int| 0 <= k < n implies 0 <= #[trigger] perm[k] < cv.len() by {}
        assert(is_time_ordering(cv, perm));
        assert forall|k: int| 0 <= k < res@.len() implies #[trigger] res@[k] == v@[perm[k]] by {}
    }
    res
}

} // verus!
