use vstd::prelude::*;
use crate::constants::{CS252_USER_NAME, MAX_SESSION_IDLE_IN_MINUTES, SESSION_START_ADDITION_IN_MINUTES};
use crate::datetime::{get_time, minutes_between, minutes_between_spec, timestamp_in_range};
use crate::structs::{CommitStats, CommitTime};
use crate::timeline::{estimates_in_time_order, is_time_ordering, lemma_estimates_in_time_order, order_by_seconds};
use crate::{is_first_match, last_index_of_author, lemma_last_index_of_author, position_of_name, CommitMetadata, Error};

verus! {

/// What the statistics read of one commit of the repository's history.
pub struct CommitInfo {
    /// The author's name, when the commit has a readable one
    pub author: Option<String>,
    /// Commit time, in seconds since the UNIX epoch
    pub seconds: i64,
    /// Lines inserted and deleted with respect to the first parent, when git could compute them
    pub diff_stats: Option<(usize, usize)>,
}

/// The name the statistics file a commit under: its author, or "-" when it has none.
pub open spec fn author_key(c: CommitInfo) -> Seq<char> {
    match c.author {
        Some(a) => a@,
        None => "-"@,
    }
}

/// The name is the CS 252 account, whose commits the statistics leave out.
pub open spec fn is_course_account(name: Seq<char>) -> bool {
    name == CS252_USER_NAME@
}

/// Whether `name` is the CS 252 account.
pub fn is_course_account_name(name: &String) -> (res: bool)
    ensures
        res == is_course_account(name@),
{
    let course = String::from_str(CS252_USER_NAME);
    *name == course
}

/// The name the statistics file `commit` under.
fn commit_author(commit: &CommitInfo) -> (res: String)
    ensures
        res@ == author_key(*commit),
{
    match &commit.author {
        Some(a) => a.clone(),
        None => String::from_str("-"),
    }
}

/// Gets the position of the initial commit among the authors of a history walked from the
/// oldest commit, ignoring the CS252 user
///
/// * `authors` - author names of the commits, oldest first
pub fn get_initial_commit(authors: &Vec<String>) -> (res: Result<usize, Error>)
    ensures
        res matches Ok(i) ==> {
            &&& i < authors.len()
            &&& !is_course_account(authors@[i as int]@)
            &&& forall|j: int| 0 <= j < i ==> is_course_account(#[trigger] authors@[j]@)
        },
        res matches Err(e) ==> {
            &&& e is NoCommits
            &&& forall|j: int| 0 <= j < authors.len() ==> is_course_account(#[trigger] authors@[j]@)
        },
{
    let mut i: usize = 0;
    while i < authors.len()
        invariant
            i <= authors.len(),
            forall|j: int| 0 <= j < i ==> is_course_account(#[trigger] authors@[j]@),
        decreases authors.len() - i,
    {
        if !is_course_account_name(&authors[i]) {
            return Ok(i);
        }
        i += 1;
    }
    Err(Error::NoCommits)
}

/// The pieces of `s` between its spaces, as `str::split(' ')` yields them (empty pieces
/// included).
pub open spec fn split_spaces(s: Seq<char>) -> Seq<Seq<char>>
    decreases s.len(),
{
    if s.len() == 0 {
        seq![Seq::<char>::empty()]
    } else if s.last() == ' ' {
        split_spaces(s.drop_last()).push(Seq::<char>::empty())
    } else {
        let p = split_spaces(s.drop_last());
        p.update(p.len() - 1, p.last().push(s.last()))
    }
}

/// The pieces joined back together, with a space between each two.
pub open spec fn join_spaces(pieces: Seq<Seq<char>>) -> Seq<char>
    decreases pieces.len(),
{
    if pieces.len() == 0 {
        Seq::<char>::empty()
    } else if pieces.len() == 1 {
        pieces[0]
    } else {
        join_spaces(pieces.drop_last()).push(' ') + pieces.last()
    }
}

/// Splitting at the spaces gives at least one piece, no piece holds a space, and joining the
/// pieces with spaces gives the string back.
pub proof fn lemma_split_join(s: Seq<char>)
    ensures
        split_spaces(s).len() >= 1,
        forall|k: int, c: int|
            0 <= k < split_spaces(s).len() && 0 <= c < split_spaces(s)[k].len()
                ==> #[trigger] split_spaces(s)[k][c] != ' ',
        join_spaces(split_spaces(s)) == s,
    decreases s.len(),
{
    if s.len() > 0 {
        let t = s.drop_last();
        lemma_split_join(t);
        let p = split_spaces(t);
        if s.last() == ' ' {
            let q = p.push(Seq::<char>::empty());
            assert(q.drop_last() == p);
            assert(join_spaces(q) == join_spaces(p).push(' ') + Seq::<char>::empty());
            assert(join_spaces(q) =~= s);
        } else {
            let q = p.update(p.len() - 1, p.last().push(s.last()));
            assert forall|k: int, c: int|
                0 <= k < q.len() && 0 <= c < q[k].len() implies #[trigger] q[k][c] != ' ' by {
                if k == p.len() - 1 && c == p.last().len() {
                } else {
                    assert(q[k][c] == p[k][c]);
                }
            }
            if p.len() == 1 {
                assert(join_spaces(q) == q[0]);
                assert(join_spaces(q) =~= s);
            } else {
                assert(q.drop_last() =~= p.drop_last());
                assert(join_spaces(q) == join_spaces(p.drop_last()).push(' ') + q.last());
                assert(join_spaces(p) == join_spaces(p.drop_last()).push(' ') + p.last());
                assert(join_spaces(q) =~= join_spaces(p).push(s.last()));
                assert(join_spaces(q) =~= s);
            }
        }
    }
}

/// Splits a pathspec into its patterns, one at each space
///
/// * `pathspec` - pathspec to consider
pub fn split_pathspec(pathspec: &str) -> (res: Vec<String>)
    ensures
        res@.len() == split_spaces(pathspec@).len(),
        forall|k: int| 0 <= k < res@.len() ==> #[trigger] res@[k]@ == split_spaces(pathspec@)[k],
{
    let ghost s = pathspec@;
    let n = pathspec.unicode_len();
    let mut res: Vec<String> = Vec::new();
    let mut start: usize = 0;
    let mut i: usize = 0;
    assert(s.subrange(0, 0) =~= Seq::<char>::empty());
    while i < n
        invariant
            s == pathspec@,
            n == s.len(),
            start <= i <= n,
            res@.len() + 1 == split_spaces(s.subrange(0, i as int)).len(),
            forall|k: int| 0 <= k < res@.len() ==> #[trigger] res@[k]@ == split_spaces(s.subrange(0, i as int))[k],
            split_spaces(s.subrange(0, i as int)).last() == s.subrange(start as int, i as int),
        decreases n - i,
    {
        let c = pathspec.get_char(i);
        assert(s.subrange(0, i + 1).drop_last() =~= s.subrange(0, i as int));
        assert(s.subrange(0, i + 1).last() == c);
        if c == ' ' {
            let piece = pathspec.substring_char(start, i);
            res.push(String::from_str(piece));
            start = i + 1;
            assert(s.subrange(start as int, i + 1) =~= Seq::<char>::empty());
        } else {
            assert(s.subrange(start as int, i + 1) =~= s.subrange(start as int, i as int).push(c));
        }
        i += 1;
    }
    let piece = pathspec.substring_char(start, n);
    res.push(String::from_str(piece));
    assert(s.subrange(0, n as int) =~= s);
    res
}

/// How `git log -p` shows a line of a patch, by its origin.
pub enum DiffLineKind {
    /// A line that both sides share (origin ' ')
    Context,
    /// An inserted line (origin '+'), shown in green
    Addition,
    /// A deleted line (origin '-'), shown in red
    Deletion,
    /// Any other line (file and hunk headers), which is not shown
    Hidden,
}

/// Classifies a patch line by its origin character
///
/// * `origin` - the origin of the line, as git reports it
pub fn classify_diff_line(origin: char) -> (res: DiffLineKind)
    ensures
        origin == ' ' <==> res is Context,
        origin == '+' <==> res is Addition,
        origin == '-' <==> res is Deletion,
        res is Hidden <==> (origin != ' ' && origin != '+' && origin != '-'),
{
    if origin == ' ' {
        DiffLineKind::Context
    } else if origin == '+' {
        DiffLineKind::Addition
    } else if origin == '-' {
        DiffLineKind::Deletion
    } else {
        DiffLineKind::Hidden
    }
}

/// Lines inserted and deleted by a commit, zero when git could not compute them.
pub open spec fn diff_of(c: CommitInfo) -> (nat, nat) {
    match c.diff_stats {
        Some(d) => (d.0 as nat, d.1 as nat),
        None => (0, 0),
    }
}

/// Number of commits of `s` filed under `a`.
pub open spec fn commit_count(s: Seq<CommitInfo>, a: Seq<char>) -> nat
    decreases s.len(),
{
    if s.len() == 0 {
        0
    } else {
        commit_count(s.drop_last(), a) + if author_key(s.last()) == a {
            1nat
        } else {
            0nat
        }
    }
}

/// Lines inserted by the commits of `s` filed under `a`.
pub open spec fn insertion_total(s: Seq<CommitInfo>, a: Seq<char>) -> nat
    decreases s.len(),
{
    if s.len() == 0 {
        0
    } else {
        insertion_total(s.drop_last(), a) + if author_key(s.last()) == a {
            diff_of(s.last()).0
        } else {
            0nat
        }
    }
}

/// Lines deleted by the commits of `s` filed under `a`.
pub open spec fn deletion_total(s: Seq<CommitInfo>, a: Seq<char>) -> nat
    decreases s.len(),
{
    if s.len() == 0 {
        0
    } else {
        deletion_total(s.drop_last(), a) + if author_key(s.last()) == a {
            diff_of(s.last()).1
        } else {
            0nat
        }
    }
}

/// The statistics `e` are those of author `e.author` over the history `s`, and that author has
/// commits there.
pub open spec fn stats_match(s: Seq<CommitInfo>, e: CommitStats) -> bool {
    &&& e.count == commit_count(s, e.author@)
    &&& e.insertions == insertion_total(s, e.author@)
    &&& e.deletions == deletion_total(s, e.author@)
    &&& commit_count(s, e.author@) > 0
}

/// No author of `v` has more commits than one before it.
pub open spec fn sorted_by_count(v: Seq<CommitStats>) -> bool {
    forall|i: int, j: int| 0 <= i < j < v.len() ==> #[trigger] v[i].count >= #[trigger] v[j].count
}

/// No two entries of `v` belong to the same author.
pub open spec fn distinct_stats_authors(v: Seq<CommitStats>) -> bool {
    forall|i: int, j: int| 0 <= i < j < v.len() ==> #[trigger] v[i].author@ != #[trigger] v[j].author@
}

/// The totals of a prefix of the history are no larger than those of the whole history, and
/// an author has no more commits than the history has.
pub proof fn lemma_totals_of_prefix(s: Seq<CommitInfo>, n: int, a: Seq<char>)
    requires
        0 <= n <= s.len(),
    ensures
        commit_count(s.take(n), a) <= commit_count(s, a),
        insertion_total(s.take(n), a) <= insertion_total(s, a),
        deletion_total(s.take(n), a) <= deletion_total(s, a),
        commit_count(s, a) <= s.len(),
    decreases s.len(),
{
    if s.len() > 0 {
        if n == s.len() {
            assert(s.take(n) =~= s);
            lemma_totals_of_prefix(s.drop_last(), n - 1, a);
        } else {
            assert(s.drop_last().take(n) =~= s.take(n));
            lemma_totals_of_prefix(s.drop_last(), n, a);
        }
    }
}

/// Inserts `x` into the list ordered by commit count, after every entry with at least as many
/// commits.
#[verifier::spinoff_prover]
fn insert_by_count(out: &mut Vec<CommitStats>, x: CommitStats)
    requires
        sorted_by_count(old(out)@),
    ensures
        sorted_by_count(final(out)@),
        exists|p: int| 0 <= p <= old(out)@.len() && final(out)@ == old(out)@.insert(p, x),
{
    let mut p: usize = 0;
    while p < out.len() && out[p].count >= x.count
        invariant
            p <= out.len(),
            forall|q: int| 0 <= q < p ==> #[trigger] out@[q].count >= x.count,
        decreases out.len() - p,
    {
        p += 1;
    }
    let ghost before = out@;
    proof {
        before.insert_ensures(p as int, x);
    }
    out.insert(p, x);
    assert forall|i: int, j: int| 0 <= i < j < out@.len() implies #[trigger] out@[i].count >= #[trigger] out@[j].count by {
        if j < p {
        } else if j == p {
        } else if i < p {
            assert(out@[j] == before[j - 1]);
            assert(out@[i].count >= x.count);
            assert(before[p as int].count < x.count);
        } else if i == p {
            assert(out@[j] == before[j - 1]);
            assert(before[p as int].count < x.count);
            if j - 1 > p {
                assert(before[p as int].count >= before[j - 1].count);
            }
        } else {
            assert(out@[j] == before[j - 1]);
            assert(out@[i] == before[i - 1]);
        }
    }
}

/// Every entry of `v` holds the statistics of its author over `s`, no author appears twice, and
/// every author with commits in `s` has an entry.
pub open spec fn stats_cover(s: Seq<CommitInfo>, v: Seq<CommitStats>) -> bool {
    &&& forall|k: int| 0 <= k < v.len() ==> stats_match(s, #[trigger] v[k])
    &&& distinct_stats_authors(v)
    &&& forall|a: Seq<char>|
        #[trigger] commit_count(s, a) > 0 ==> exists|k: int| 0 <= k < v.len() && #[trigger] v[k].author@ == a
}

/// Counting one more commit of an author who already has an entry.
proof fn lemma_stats_update(
    prefix: Seq<CommitInfo>,
    next: Seq<CommitInfo>,
    v: Seq<CommitStats>,
    idx: int,
    updated: CommitStats,
)
    requires
        next.len() > 0,
        next.drop_last() == prefix,
        stats_cover(prefix, v),
        0 <= idx < v.len(),
        author_key(next.last()) == v[idx].author@,
        updated.author@ == v[idx].author@,
        updated.count == v[idx].count + 1,
        updated.insertions == v[idx].insertions + diff_of(next.last()).0,
        updated.deletions == v[idx].deletions + diff_of(next.last()).1,
    ensures
        stats_cover(next, v.update(idx, updated)),
{
    let w = v.update(idx, updated);
    let name = v[idx].author@;
    assert(stats_match(prefix, v[idx]));
    assert forall|k: int| 0 <= k < w.len() implies stats_match(next, #[trigger] w[k]) by {
        if k != idx {
            assert(w[k] == v[k]);
            assert(stats_match(prefix, v[k]));
            assert(v[k].author@ != name);
        }
    }
    assert forall|i: int, j: int| 0 <= i < j < w.len() implies #[trigger] w[i].author@ != #[trigger] w[j].author@ by {
        assert(w[i].author@ == v[i].author@);
        assert(w[j].author@ == v[j].author@);
    }
    assert forall|a: Seq<char>| #[trigger] commit_count(next, a) > 0 implies exists|k: int|
        0 <= k < w.len() && #[trigger] w[k].author@ == a by {
        if a == name {
            assert(w[idx].author@ == a);
        } else {
            assert(commit_count(prefix, a) > 0);
            let k = choose|k: int| 0 <= k < v.len() && #[trigger] v[k].author@ == a;
            assert(w[k].author@ == a);
        }
    }
}

/// Counting the first commit of an author who has no entry yet.
proof fn lemma_stats_push(prefix: Seq<CommitInfo>, next: Seq<CommitInfo>, v: Seq<CommitStats>, fresh: CommitStats)
    requires
        next.len() > 0,
        next.drop_last() == prefix,
        stats_cover(prefix, v),
        forall|k: int| 0 <= k < v.len() ==> #[trigger] v[k].author@ != fresh.author@,
        author_key(next.last()) == fresh.author@,
        fresh.count == 1,
        fresh.insertions == diff_of(next.last()).0,
        fresh.deletions == diff_of(next.last()).1,
    ensures
        stats_cover(next, v.push(fresh)),
{
    let w = v.push(fresh);
    let name = fresh.author@;
    assert(commit_count(prefix, name) == 0) by {
        if commit_count(prefix, name) > 0 {
            let k = choose|k: int| 0 <= k < v.len() && #[trigger] v[k].author@ == name;
        }
    }
    lemma_zero_count_zero_totals(prefix, name);
    assert forall|k: int| 0 <= k < w.len() implies stats_match(next, #[trigger] w[k]) by {
        if k < v.len() {
            assert(w[k] == v[k]);
            assert(stats_match(prefix, v[k]));
        }
    }
    assert forall|a: Seq<char>| #[trigger] commit_count(next, a) > 0 implies exists|k: int|
        0 <= k < w.len() && #[trigger] w[k].author@ == a by {
        if a == name {
            assert(w[v.len() as int].author@ == a);
        } else {
            assert(commit_count(prefix, a) > 0);
            let k = choose|k: int| 0 <= k < v.len() && #[trigger] v[k].author@ == a;
            assert(w[k].author@ == a);
        }
    }
}

/// An author without commits has inserted and deleted nothing.
proof fn lemma_zero_count_zero_totals(s: Seq<CommitInfo>, a: Seq<char>)
    requires
        commit_count(s, a) == 0,
    ensures
        insertion_total(s, a) == 0,
        deletion_total(s, a) == 0,
    decreases s.len(),
{
    if s.len() > 0 {
        lemma_zero_count_zero_totals(s.drop_last(), a);
    }
}

/// No author's inserted or deleted lines over the history add up beyond `usize::MAX`.
pub open spec fn line_totals_fit(s: Seq<CommitInfo>) -> bool {
    forall|a: Seq<char>|
        #![trigger insertion_total(s, a)]
        #![trigger deletion_total(s, a)]
        insertion_total(s, a) <= usize::MAX && deletion_total(s, a) <= usize::MAX
}

/// Counts the commits, insertions and deletions of each author, in order of first appearance;
/// `None` when an author's line count overflows.
#[verifier::spinoff_prover]
fn tally_commits(commits: &Vec<CommitInfo>) -> (res: Option<Vec<CommitStats>>)
    ensures
        res is Some <==> line_totals_fit(commits@),
        res matches Some(v) ==> stats_cover(commits@, v@),
{
    let ghost s = commits@;
    let mut acc: Vec<CommitStats> = Vec::new();
    let mut names: Vec<String> = Vec::new();
    let mut i: usize = 0;
    assert(s.take(0) =~= Seq::<CommitInfo>::empty());
    while i < commits.len()
        invariant
            s == commits@,
            i <= s.len(),
            acc.len() == names.len(),
            forall|k: int| 0 <= k < acc.len() ==> #[trigger] names@[k]@ == acc@[k].author@,
            stats_cover(s.take(i as int), acc@),
        decreases s.len() - i,
    {
        let commit = &commits[i];
        let name = commit_author(commit);
        let (ins, del) = match commit.diff_stats {
            Some(d) => d,
            None => (0, 0),
        };
        let ghost prefix = s.take(i as int);
        let ghost next = s.take(i + 1);
        assert(next.drop_last() =~= prefix);
        assert(next.last() == s[i as int]);
        assert(diff_of(next.last()) == (ins as nat, del as nat));
        proof {
            lemma_totals_of_prefix(s, i + 1, name@);
            lemma_totals_of_prefix(prefix, i as int, name@);
            assert(prefix.take(i as int) =~= prefix);
        }
        match position_of_name(&names, &name) {
            Some(idx) => {
                let e = &acc[idx];
                proof {
                    assert(stats_match(prefix, acc@[idx as int]));
                    assert(commit_count(next, name@) == commit_count(prefix, name@) + 1);
                    assert(insertion_total(next, name@) == insertion_total(prefix, name@) + ins);
                    assert(deletion_total(next, name@) == deletion_total(prefix, name@) + del);
                }
                let insertions = match e.insertions.checked_add(ins) {
                    Some(n) => n,
                    None => {
                        assert(insertion_total(s, name@) > usize::MAX);
                        return None;
                    },
                };
                let deletions = match e.deletions.checked_add(del) {
                    Some(n) => n,
                    None => {
                        assert(deletion_total(s, name@) > usize::MAX);
                        return None;
                    },
                };
                let updated = CommitStats { author: e.author.clone(), count: e.count + 1, insertions, deletions };
                proof {
                    lemma_stats_update(prefix, next, acc@, idx as int, updated);
                }
                acc.set(idx, updated);
            },
            None => {
                let fresh = CommitStats { author: name.clone(), count: 1, insertions: ins, deletions: del };
                proof {
                    assert forall|k: int| 0 <= k < acc@.len() implies #[trigger] acc@[k].author@ != fresh.author@ by {
                        assert(names@[k]@ == acc@[k].author@);
                    }
                    lemma_stats_push(prefix, next, acc@, fresh);
                }
                acc.push(fresh);
                names.push(name);
            },
        }
        i += 1;
    }
    assert(s.take(s.len() as int) =~= s);
    assert forall|a: Seq<char>|
        #![trigger insertion_total(s, a)]
        #![trigger deletion_total(s, a)]
        insertion_total(s, a) <= usize::MAX && deletion_total(s, a) <= usize::MAX by {
        if commit_count(s, a) > 0 {
            let k = choose|k: int| 0 <= k < acc@.len() && #[trigger] acc@[k].author@ == a;
            assert(stats_match(s, acc@[k]));
        } else {
            lemma_zero_count_zero_totals(s, a);
        }
    }
    Some(acc)
}

/// The statistics that `order_stats` keeps are those of the whole history, minus the CS 252
/// account.
proof fn lemma_ordered_stats(s: Seq<CommitInfo>, all: Seq<CommitStats>, out: Seq<CommitStats>)
    requires
        stats_cover(s, all),
        ordered_part(all, 0, out, true),
    ensures
        forall|k: int|
            0 <= k < out.len() ==> {
                &&& stats_match(s, #[trigger] out[k])
                &&& !is_course_account(out[k].author@)
            },
        forall|a: Seq<char>|
            #[trigger] commit_count(s, a) > 0 && !is_course_account(a) ==> exists|k: int|
                0 <= k < out.len() && #[trigger] out[k].author@ == a,
        distinct_stats_authors(out),
{
    assert forall|m: int| 0 <= m < out.len() implies {
        &&& stats_match(s, #[trigger] out[m])
        &&& !is_course_account(out[m].author@)
    } by {
        assert(kept(out[m], true));
        let k = choose|k: int| 0 <= k < all.len() && #[trigger] all[k] == #[trigger] out[m];
        assert(stats_match(s, all[k]));
    }
    assert forall|a: Seq<char>|
        #[trigger] commit_count(s, a) > 0 && !is_course_account(a) implies exists|k: int|
            0 <= k < out.len() && #[trigger] out[k].author@ == a by {
        let k = choose|k: int| 0 <= k < all.len() && #[trigger] all[k].author@ == a;
        assert(kept(all[k], true));
        let m = choose|m: int| 0 <= m < out.len() && #[trigger] out[m] == all[k];
        assert(out[m].author@ == a);
    }
    assert forall|i: int, j: int| 0 <= i < j < out.len() implies #[trigger] out[i].author@ != #[trigger] out[j].author@ by {
        assert(out[i].author_name() != out[j].author_name());
    }
}

/// `v` lists, sorted by number of commits and with no author twice, the statistics of every
/// author of the history `s` but the CS 252 account.
pub open spec fn commit_stats_of(s: Seq<CommitInfo>, v: Seq<CommitStats>) -> bool {
    &&& forall|k: int|
        0 <= k < v.len() ==> {
            &&& stats_match(s, #[trigger] v[k])
            &&& !is_course_account(v[k].author@)
        }
    &&& forall|a: Seq<char>|
        #[trigger] commit_count(s, a) > 0 && !is_course_account(a) ==> exists|k: int|
            0 <= k < v.len() && #[trigger] v[k].author@ == a
    &&& distinct_stats_authors(v)
    &&& sorted_by_count(v)
}

/// Get the commit statistics for each author of the given history
///
/// The CS252 user will be filtered out! Commits without an author are counted under "-".
/// The result is sorted by number of commits (descending order).
///
/// * `commits` - the commits of the history
pub fn get_commit_stats(commits: &Vec<CommitInfo>) -> (res: Vec<CommitStats>)
    requires
        line_totals_fit(commits@),
    ensures
        commit_stats_of(commits@, res@),
{
    try_get_commit_stats(commits).unwrap()
}

/// The commit statistics of `get_commit_stats`, or `None` when some author's inserted or deleted
/// lines add up beyond `usize::MAX` (where `get_commit_stats` cannot count them).
///
/// * `commits` - the commits of the history
pub fn try_get_commit_stats(commits: &Vec<CommitInfo>) -> (res: Option<Vec<CommitStats>>)
    ensures
        res is Some <==> line_totals_fit(commits@),
        res matches Some(v) ==> commit_stats_of(commits@, v@),
{
    let ghost s = commits@;
    let acc = match tally_commits(commits) {
        Some(v) => v,
        None => return None,
    };
    let ghost all = acc@;
    let out = order_stats(acc);
    proof {
        lemma_ordered_stats(s, all, out@);
    }
    Some(out)
}

/// Whether an entry stays: when `drop_course` is set, the CS 252 account's entry does not.
pub open spec fn kept<T: CommitMetadata>(x: T, drop_course: bool) -> bool {
    !(drop_course && is_course_account(x.author_name()))
}

/// `out` holds, with no author twice, the entries of `whole` from position `n` on that are
/// kept.
pub open spec fn ordered_part<T: CommitMetadata>(whole: Seq<T>, n: int, out: Seq<T>, drop_course: bool) -> bool {
    &&& forall|m: int|
        0 <= m < out.len() ==> kept(out[m], drop_course) && exists|k: int|
            n <= k < whole.len() && #[trigger] whole[k] == #[trigger] out[m]
    &&& forall|k: int|
        n <= k < whole.len() && kept(#[trigger] whole[k], drop_course) ==> exists|m: int|
            0 <= m < out.len() && #[trigger] out[m] == whole[k]
    &&& forall|i: int, j: int|
        0 <= i < j < out.len() ==> #[trigger] out[i].author_name() != #[trigger] out[j].author_name()
}

/// No two elements of `whole` share an author.
pub open spec fn distinct_authors<T: CommitMetadata>(whole: Seq<T>) -> bool {
    forall|i: int, j: int|
        0 <= i < j < whole.len() ==> #[trigger] whole[i].author_name() != #[trigger] whole[j].author_name()
}

/// Taking in `whole[n - 1]`, inserted at position `p`.
#[verifier::spinoff_prover]
proof fn lemma_ordered_insert<T: CommitMetadata>(whole: Seq<T>, n: int, before: Seq<T>, p: int, drop_course: bool)
    requires
        1 <= n <= whole.len(),
        distinct_authors(whole),
        ordered_part(whole, n, before, drop_course),
        0 <= p <= before.len(),
        kept(whole[n - 1], drop_course),
    ensures
        ordered_part(whole, n - 1, before.insert(p, whole[n - 1]), drop_course),
{
    before.insert_ensures(p, whole[n - 1]);
    lemma_ordered_insert_members(whole, n, before, p, drop_course);
    lemma_ordered_insert_covers(whole, n, before, p, drop_course);
    lemma_ordered_insert_distinct(whole, n, before, p, drop_course);
}

#[verifier::spinoff_prover]
proof fn lemma_ordered_insert_members<T: CommitMetadata>(whole: Seq<T>, n: int, before: Seq<T>, p: int, drop_course: bool)
    requires
        1 <= n <= whole.len(),
        ordered_part(whole, n, before, drop_course),
        0 <= p <= before.len(),
        kept(whole[n - 1], drop_course),
    ensures
        forall|m: int|
            0 <= m < before.len() + 1 ==> kept(before.insert(p, whole[n - 1])[m], drop_course)
                && exists|k: int|
                n - 1 <= k < whole.len() && #[trigger] whole[k] == #[trigger] before.insert(p, whole[n - 1])[m],
{
    let x = whole[n - 1];
    let out = before.insert(p, x);
    before.insert_ensures(p, x);
    assert forall|m: int| 0 <= m < out.len() implies kept(out[m], drop_course) && exists|k: int|
        n - 1 <= k < whole.len() && #[trigger] whole[k] == #[trigger] out[m] by {
        if m < p {
            assert(out[m] == before[m]);
            let k = choose|k: int| n <= k < whole.len() && #[trigger] whole[k] == #[trigger] before[m];
            assert(whole[k] == out[m]);
        } else if m == p {
            assert(whole[n - 1] == out[m]);
        } else {
            assert(out[m] == before[m - 1]);
            let k = choose|k: int| n <= k < whole.len() && #[trigger] whole[k] == #[trigger] before[m - 1];
            assert(whole[k] == out[m]);
        }
    }
}

#[verifier::spinoff_prover]
proof fn lemma_ordered_insert_covers<T: CommitMetadata>(whole: Seq<T>, n: int, before: Seq<T>, p: int, drop_course: bool)
    requires
        1 <= n <= whole.len(),
        ordered_part(whole, n, before, drop_course),
        0 <= p <= before.len(),
    ensures
        forall|k: int|
            n - 1 <= k < whole.len() && kept(#[trigger] whole[k], drop_course) ==> exists|m: int|
                0 <= m < before.len() + 1 && #[trigger] before.insert(p, whole[n - 1])[m] == whole[k],
{
    let x = whole[n - 1];
    let out = before.insert(p, x);
    before.insert_ensures(p, x);
    assert forall|k: int|
        n - 1 <= k < whole.len() && kept(#[trigger] whole[k], drop_course) implies exists|m: int|
            0 <= m < out.len() && #[trigger] out[m] == whole[k] by {
        if k == n - 1 {
            assert(out[p] == whole[k]);
        } else {
            let m = choose|m: int| 0 <= m < before.len() && #[trigger] before[m] == whole[k];
            if m < p {
                assert(out[m] == before[m]);
            } else {
                assert(out[m + 1] == before[m]);
            }
        }
    }
}

#[verifier::spinoff_prover]
proof fn lemma_ordered_insert_distinct<T: CommitMetadata>(whole: Seq<T>, n: int, before: Seq<T>, p: int, drop_course: bool)
    requires
        1 <= n <= whole.len(),
        distinct_authors(whole),
        ordered_part(whole, n, before, drop_course),
        0 <= p <= before.len(),
    ensures
        forall|i: int, j: int|
            0 <= i < j < before.len() + 1 ==> #[trigger] before.insert(p, whole[n - 1])[i].author_name()
                != #[trigger] before.insert(p, whole[n - 1])[j].author_name(),
{
    let x = whole[n - 1];
    let out = before.insert(p, x);
    before.insert_ensures(p, x);
    assert forall|m: int| 0 <= m < before.len() implies #[trigger] before[m].author_name() != x.author_name() by {
        let k = choose|k: int| n <= k < whole.len() && #[trigger] whole[k] == #[trigger] before[m];
        assert(whole[k].author_name() != whole[n - 1].author_name());
    }
    assert forall|i: int, j: int| 0 <= i < j < out.len() implies #[trigger] out[i].author_name() != #[trigger] out[j].author_name() by {
        if i == p {
            assert(out[j] == before[j - 1]);
        } else if j == p {
            assert(out[i] == before[i]);
        } else {
            let b1 = if i < p { i } else { i - 1 };
            let b2 = if j < p { j } else { j - 1 };
            assert(out[i] == before[b1]);
            assert(out[j] == before[b2]);
        }
    }
}

/// Passing over `whole[n - 1]`, the CS 252 account.
proof fn lemma_ordered_skip<T: CommitMetadata>(whole: Seq<T>, n: int, out: Seq<T>, drop_course: bool)
    requires
        1 <= n <= whole.len(),
        ordered_part(whole, n, out, drop_course),
        !kept(whole[n - 1], drop_course),
    ensures
        ordered_part(whole, n - 1, out, drop_course),
{
    assert forall|m: int| 0 <= m < out.len() implies kept(out[m], drop_course) && exists|k: int|
        n - 1 <= k < whole.len() && #[trigger] whole[k] == #[trigger] out[m] by {
        let k = choose|k: int| n <= k < whole.len() && #[trigger] whole[k] == #[trigger] out[m];
    }
}

/// Leaves out the CS 252 account and orders the rest by number of commits, most first.
#[verifier::spinoff_prover]
fn order_stats(all: Vec<CommitStats>) -> (out: Vec<CommitStats>)
    requires
        distinct_stats_authors(all@),
    ensures
        ordered_part(all@, 0, out@, true),
        sorted_by_count(out@),
{
    let ghost whole = all@;
    let mut acc = all;
    let mut out: Vec<CommitStats> = Vec::new();
    assert(acc@ == whole.take(acc.len() as int));
    while acc.len() > 0
        invariant
            acc@ == whole.take(acc.len() as int),
            acc.len() <= whole.len(),
            distinct_authors(whole),
            ordered_part(whole, acc.len() as int, out@, true),
            sorted_by_count(out@),
        decreases acc.len(),
    {
        let ghost n = acc.len() as int;
        let x = acc.pop().unwrap();
        assert(x == whole[n - 1]);
        assert(acc@ == whole.take(n - 1));
        if !is_course_account_name(&x.author) {
            let ghost before = out@;
            insert_by_count(&mut out, x);
            proof {
                let p = choose|p: int| 0 <= p <= before.len() && out@ == before.insert(p, x);
                lemma_ordered_insert(whole, n, before, p, true);
            }
        } else {
            proof {
                lemma_ordered_skip(whole, n, out@, true);
            }
        }
    }
    out
}

/// No author of `v` has worked more minutes than one before it.
pub open spec fn sorted_by_time(v: Seq<CommitTime>) -> bool {
    forall|i: int, j: int| 0 <= i < j < v.len() ==> #[trigger] v[i].time >= #[trigger] v[j].time
}

/// Inserts `x` into the list ordered by minutes worked, after every entry with at least as
/// many minutes.
#[verifier::spinoff_prover]
fn insert_by_time(out: &mut Vec<CommitTime>, x: CommitTime)
    requires
        sorted_by_time(old(out)@),
    ensures
        sorted_by_time(final(out)@),
        exists|p: int| 0 <= p <= old(out)@.len() && final(out)@ == old(out)@.insert(p, x),
{
    let mut p: usize = 0;
    while p < out.len() && out[p].time >= x.time
        invariant
            p <= out.len(),
            forall|q: int| 0 <= q < p ==> #[trigger] out@[q].time >= x.time,
        decreases out.len() - p,
    {
        p += 1;
    }
    let ghost before = out@;
    proof {
        before.insert_ensures(p as int, x);
    }
    out.insert(p, x);
    assert forall|i: int, j: int| 0 <= i < j < out@.len() implies #[trigger] out@[i].time >= #[trigger] out@[j].time by {
        if j < p {
        } else if j == p {
        } else if i < p {
            assert(out@[j] == before[j - 1]);
            assert(out@[i].time >= x.time);
            assert(before[p as int].time < x.time);
        } else if i == p {
            assert(out@[j] == before[j - 1]);
            assert(before[p as int].time < x.time);
            if j - 1 > p {
                assert(before[p as int].time >= before[j - 1].time);
            }
        } else {
            assert(out@[j] == before[j - 1]);
            assert(out@[i] == before[i - 1]);
        }
    }
}

/// Orders the estimates by minutes worked, most first.
#[verifier::spinoff_prover]
fn order_times(all: Vec<CommitTime>) -> (out: Vec<CommitTime>)
    requires
        distinct_authors(all@),
    ensures
        ordered_part(all@, 0, out@, false),
        sorted_by_time(out@),
{
    let ghost whole = all@;
    let mut acc = all;
    let mut out: Vec<CommitTime> = Vec::new();
    assert(acc@ == whole.take(acc.len() as int));
    while acc.len() > 0
        invariant
            acc@ == whole.take(acc.len() as int),
            acc.len() <= whole.len(),
            distinct_authors(whole),
            ordered_part(whole, acc.len() as int, out@, false),
            sorted_by_time(out@),
        decreases acc.len(),
    {
        let ghost n = acc.len() as int;
        let x = acc.pop().unwrap();
        assert(x == whole[n - 1]);
        assert(acc@ == whole.take(n - 1));
        let ghost before = out@;
        insert_by_time(&mut out, x);
        proof {
            let p = choose|p: int| 0 <= p <= before.len() && out@ == before.insert(p, x);
            lemma_ordered_insert(whole, n, before, p, false);
        }
    }
    out
}

/// The absolute value.
pub open spec fn abs_int(x: int) -> int {
    if x < 0 {
        -x
    } else {
        x
    }
}

/// Minutes that a commit adds to its author's estimate, given the time of the author's previous
/// commit: the gap between them when it is shorter than the idle limit (the same session), and
/// the session start minutes otherwise (a new session).
pub open spec fn session_minutes(previous: int, current: int) -> nat {
    let gap = abs_int(minutes_between_spec(previous, current));
    if gap < MAX_SESSION_IDLE_IN_MINUTES {
        gap as nat
    } else {
        SESSION_START_ADDITION_IN_MINUTES as nat
    }
}

/// The working-time estimate over the history `s`, walked in order: for each author, the time of
/// their latest commit so far and the minutes estimated; or the error that stops the walk.
///
/// An author's first commit counts the session start minutes. Each later commit first needs the
/// time of the author's previous commit and then its own time to be representable, and adds
/// `session_minutes`.
pub open spec fn estimate_sessions(s: Seq<CommitInfo>) -> Result<Map<Seq<char>, (i64, nat)>, Error>
    decreases s.len(),
{
    if s.len() == 0 {
        Ok(Map::empty())
    } else {
        match estimate_sessions(s.drop_last()) {
            Err(e) => Err(e),
            Ok(m) => {
                let c = s.last();
                let a = author_key(c);
                if !m.contains_key(a) {
                    Ok(m.insert(a, (c.seconds, SESSION_START_ADDITION_IN_MINUTES as nat)))
                } else if !timestamp_in_range(m[a].0 as int) {
                    Err(Error::PreviousCommitTimeError)
                } else if !timestamp_in_range(c.seconds as int) {
                    Err(Error::CommitTimeError)
                } else {
                    Ok(m.insert(a, (c.seconds, m[a].1 + session_minutes(m[a].0 as int, c.seconds as int))))
                }
            },
        }
    }
}

/// Once the walk stops with an error, the rest of the history does not change it.
pub proof fn lemma_estimate_error_stays(s: Seq<CommitInfo>, n: int)
    requires
        0 <= n <= s.len(),
        estimate_sessions(s.take(n)) is Err,
    ensures
        estimate_sessions(s) == estimate_sessions(s.take(n)),
    decreases s.len() - n,
{
    if n < s.len() {
        assert(s.take(n + 1).drop_last() =~= s.take(n));
        lemma_estimate_error_stays(s, n + 1);
    } else {
        assert(s.take(n) =~= s);
    }
}

/// Every author with commits gets an estimate of at least one session start, and at most one
/// session start per commit.
pub proof fn lemma_estimate_bounds(s: Seq<CommitInfo>, a: Seq<char>)
    requires
        estimate_sessions(s) is Ok,
    ensures
        estimate_sessions(s)->Ok_0.contains_key(a) <==> commit_count(s, a) > 0,
        estimate_sessions(s)->Ok_0.contains_key(a) ==> {
            &&& SESSION_START_ADDITION_IN_MINUTES <= estimate_sessions(s)->Ok_0[a].1
            &&& estimate_sessions(s)->Ok_0[a].1 <= SESSION_START_ADDITION_IN_MINUTES * commit_count(s, a)
        },
    decreases s.len(),
{
    if s.len() > 0 {
        lemma_estimate_bounds(s.drop_last(), a);
    }
}

/// The estimates after `i` commits, each at most the session start minutes per commit walked.
pub open spec fn estimates_held(
    s: Seq<CommitInfo>,
    i: int,
    names: Seq<String>,
    lasts: Seq<i64>,
    totals: Seq<usize>,
) -> bool {
    &&& estimate_sessions(s.take(i)) is Ok
    &&& names.len() == lasts.len() == totals.len()
    &&& forall|k: int|
        0 <= k < names.len() ==> {
            &&& #[trigger] estimate_sessions(s.take(i))->Ok_0.contains_key(names[k]@)
            &&& estimate_sessions(s.take(i))->Ok_0[names[k]@] == (lasts[k], totals[k] as nat)
            &&& totals[k] <= SESSION_START_ADDITION_IN_MINUTES * i
        }
    &&& forall|a: Seq<char>|
        #[trigger] estimate_sessions(s.take(i))->Ok_0.contains_key(a) ==> exists|k: int|
            0 <= k < names.len() && #[trigger] names[k]@ == a
    &&& forall|k1: int, k2: int| 0 <= k1 < k2 < names.len() ==> #[trigger] names[k1]@ != #[trigger] names[k2]@
}

/// `names` and `totals` list each author of the walk's result `m` once, with their minutes.
pub open spec fn sessions_listed(m: Map<Seq<char>, (i64, nat)>, names: Seq<String>, totals: Seq<usize>) -> bool {
    &&& names.len() == totals.len()
    &&& forall|k: int| 0 <= k < names.len() ==> {
        &&& #[trigger] m.contains_key(names[k]@)
        &&& m[names[k]@].1 == totals[k]
    }
    &&& forall|a: Seq<char>| #[trigger] m.contains_key(a) ==> exists|k: int|
        0 <= k < names.len() && #[trigger] names[k]@ == a
    &&& forall|k1: int, k2: int| 0 <= k1 < k2 < names.len() ==> #[trigger] names[k1]@ != #[trigger] names[k2]@
}

/// The estimates held after the whole walk are those of the walk.
proof fn lemma_held_sessions_listed(s: Seq<CommitInfo>, names: Seq<String>, lasts: Seq<i64>, totals: Seq<usize>)
    requires
        estimates_held(s, s.len() as int, names, lasts, totals),
        s.take(s.len() as int) == s,
    ensures
        estimate_sessions(s) is Ok,
        sessions_listed(estimate_sessions(s)->Ok_0, names, totals),
{
    let m = estimate_sessions(s)->Ok_0;
    assert forall|k: int| 0 <= k < names.len() implies {
        &&& #[trigger] m.contains_key(names[k]@)
        &&& m[names[k]@].1 == totals[k]
    } by {
        assert(estimate_sessions(s.take(s.len() as int))->Ok_0.contains_key(names[k]@));
    }
}

/// Walks the history, estimating each author's minutes in order of first appearance.
#[verifier::spinoff_prover]
fn tally_sessions(commits: &Vec<CommitInfo>) -> (res: Result<(Vec<String>, Vec<usize>), Error>)
    requires
        commits@.len() * SESSION_START_ADDITION_IN_MINUTES <= usize::MAX,
    ensures
        match estimate_sessions(commits@) {
            Err(e) => res == Err::<(Vec<String>, Vec<usize>), Error>(e),
            Ok(m) => res is Ok && sessions_listed(m, res->Ok_0.0@, res->Ok_0.1@),
        },
{
    let ghost s = commits@;
    let mut names: Vec<String> = Vec::new();
    let mut lasts: Vec<i64> = Vec::new();
    let mut totals: Vec<usize> = Vec::new();
    let mut i: usize = 0;
    assert(s.take(0) =~= Seq::<CommitInfo>::empty());
    while i < commits.len()
        invariant
            s == commits@,
            i <= s.len(),
            s.len() * SESSION_START_ADDITION_IN_MINUTES <= usize::MAX,
            estimates_held(s, i as int, names@, lasts@, totals@),
        decreases s.len() - i,
    {
        let commit = &commits[i];
        let name = commit_author(commit);
        let ghost prefix = s.take(i as int);
        let ghost next = s.take(i + 1);
        let ghost m = estimate_sessions(prefix)->Ok_0;
        assert(next.drop_last() =~= prefix);
        assert(next.last() == s[i as int]);
        let ghost old_names = names@;
        let ghost old_lasts = lasts@;
        let ghost old_totals = totals@;
        match position_of_name(&names, &name) {
            None => {
                assert(!m.contains_key(name@)) by {
                    if m.contains_key(name@) {
                        let k = choose|k: int| 0 <= k < old_names.len() && #[trigger] old_names[k]@ == name@;
                    }
                }
                names.push(name);
                lasts.push(commit.seconds);
                totals.push(SESSION_START_ADDITION_IN_MINUTES);
                let ghost m2 = estimate_sessions(next)->Ok_0;
                assert(m2 == m.insert(author_key(s[i as int]), (commit.seconds, SESSION_START_ADDITION_IN_MINUTES as nat)));
                assert forall|k: int| 0 <= k < names@.len() implies {
                    &&& #[trigger] m2.contains_key(names@[k]@)
                    &&& m2[names@[k]@] == (lasts@[k], totals@[k] as nat)
                    &&& totals@[k] <= SESSION_START_ADDITION_IN_MINUTES * (i + 1)
                } by {
                    if k < old_names.len() {
                        assert(names@[k] == old_names[k]);
                        assert(old_names[k]@ != names@[old_names.len() as int]@);
                    }
                }
                assert forall|a: Seq<char>| #[trigger] m2.contains_key(a) implies exists|k: int|
                    0 <= k < names@.len() && #[trigger] names@[k]@ == a by {
                    if a == names@[old_names.len() as int]@ {
                    } else {
                        let k = choose|k: int| 0 <= k < old_names.len() && #[trigger] old_names[k]@ == a;
                        assert(names@[k]@ == a);
                    }
                }
                assert forall|k1: int, k2: int| 0 <= k1 < k2 < names@.len() implies #[trigger] names@[k1]@ != #[trigger] names@[k2]@ by {
                    if k2 < old_names.len() {
                        assert(names@[k1] == old_names[k1]);
                        assert(names@[k2] == old_names[k2]);
                    } else {
                        assert(names@[k1] == old_names[k1]);
                    }
                }
            },
            Some(idx) => {
                assert(m.contains_key(name@));
                assert(m[name@] == (lasts@[idx as int], totals@[idx as int] as nat));
                let previous = lasts[idx];
                let previous_time = match get_time(previous) {
                    Some(t) => t,
                    None => {
                        proof {
                            lemma_estimate_error_stays(s, i + 1);
                        }
                        return Err(Error::PreviousCommitTimeError);
                    },
                };
                let commit_time = match get_time(commit.seconds) {
                    Some(t) => t,
                    None => {
                        proof {
                            lemma_estimate_error_stays(s, i + 1);
                        }
                        return Err(Error::CommitTimeError);
                    },
                };
                let gap = minutes_between(&previous_time, &commit_time);
                let gap_abs: i64 = if gap < 0 { -gap } else { gap };
                let added: usize = if gap_abs < MAX_SESSION_IDLE_IN_MINUTES as i64 {
                    gap_abs as usize
                } else {
                    SESSION_START_ADDITION_IN_MINUTES
                };
                assert(added == session_minutes(previous as int, commit.seconds as int));
                let total = totals[idx] + added;
                totals.set(idx, total);
                lasts.set(idx, commit.seconds);
                let ghost m2 = estimate_sessions(next)->Ok_0;
                assert(m2 == m.insert(name@, (commit.seconds, m[name@].1 + session_minutes(previous as int, commit.seconds as int))));
                assert forall|k: int| 0 <= k < names@.len() implies {
                    &&& #[trigger] m2.contains_key(names@[k]@)
                    &&& m2[names@[k]@] == (lasts@[k], totals@[k] as nat)
                    &&& totals@[k] <= SESSION_START_ADDITION_IN_MINUTES * (i + 1)
                } by {
                    if k != idx {
                        assert(names@[k]@ != name@);
                        assert(totals@[k] == old_totals[k]);
                        assert(lasts@[k] == old_lasts[k]);
                    } else {
                        assert(totals@[k] == old_totals[k] + added);
                        assert(old_totals[k] <= SESSION_START_ADDITION_IN_MINUTES * i);
                        assert(lasts@[k] == commit.seconds);
                    }
                }
            },
        }
        i += 1;
    }
    assert(s.take(s.len() as int) =~= s);
    proof {
        lemma_held_sessions_listed(s, names@, lasts@, totals@);
    }
    Ok((names, totals))
}

/// `v` lists, sorted by minutes worked and with no author twice, the estimate of every author
/// of the walk's result `m`.
pub open spec fn estimates_match(m: Map<Seq<char>, (i64, nat)>, v: Seq<CommitTime>) -> bool {
    &&& forall|k: int| 0 <= k < v.len() ==> {
        &&& #[trigger] m.contains_key(v[k].author@)
        &&& v[k].time == m[v[k].author@].1
    }
    &&& forall|a: Seq<char>| #[trigger] m.contains_key(a) ==> exists|k: int|
        0 <= k < v.len() && #[trigger] v[k].author@ == a
    &&& distinct_authors(v)
    &&& sorted_by_time(v)
}

/// Pairs each author with their minutes.
#[verifier::spinoff_prover]
fn collect_times(names: &Vec<String>, totals: &Vec<usize>) -> (all: Vec<CommitTime>)
    requires
        names.len() == totals.len(),
        forall|k1: int, k2: int| 0 <= k1 < k2 < names.len() ==> #[trigger] names@[k1]@ != #[trigger] names@[k2]@,
    ensures
        all@.len() == names.len(),
        forall|j: int| 0 <= j < all@.len() ==> #[trigger] all@[j].author@ == names@[j]@ && all@[j].time == totals@[j],
        distinct_authors(all@),
{
    let mut all: Vec<CommitTime> = Vec::new();
    let mut k: usize = 0;
    while k < names.len()
        invariant
            names.len() == totals.len(),
            k <= names.len(),
            all@.len() == k,
            forall|j: int| 0 <= j < k ==> #[trigger] all@[j].author@ == names@[j]@ && all@[j].time == totals@[j],
        decreases names.len() - k,
    {
        all.push(CommitTime { author: names[k].clone(), time: totals[k] });
        k += 1;
    }
    assert forall|j1: int, j2: int| 0 <= j1 < j2 < all@.len() implies #[trigger] all@[j1].author_name() != #[trigger] all@[j2].author_name() by {
        assert(names@[j1]@ != names@[j2]@);
    }
    all
}

/// The ordered estimates are those of the walk.
proof fn lemma_ordered_times(
    m: Map<Seq<char>, (i64, nat)>,
    names: Seq<String>,
    whole: Seq<CommitTime>,
    out: Seq<CommitTime>,
)
    requires
        whole.len() == names.len(),
        forall|j: int| 0 <= j < whole.len() ==> {
            &&& #[trigger] m.contains_key(names[j]@)
            &&& m[names[j]@].1 == whole[j].time
        },
        forall|j: int| 0 <= j < whole.len() ==> #[trigger] whole[j].author@ == names[j]@,
        forall|a: Seq<char>| #[trigger] m.contains_key(a) ==> exists|k: int| 0 <= k < names.len() && #[trigger] names[k]@ == a,
        ordered_part(whole, 0, out, false),
    ensures
        forall|k: int| 0 <= k < out.len() ==> {
            &&& #[trigger] m.contains_key(out[k].author@)
            &&& out[k].time == m[out[k].author@].1
        },
        forall|a: Seq<char>| #[trigger] m.contains_key(a) ==> exists|k: int|
            0 <= k < out.len() && #[trigger] out[k].author@ == a,
        distinct_authors(out),
        sorted_by_time(out) ==> estimates_match(m, out),
{
    assert forall|j: int| 0 <= j < out.len() implies {
        &&& #[trigger] m.contains_key(out[j].author@)
        &&& out[j].time == m[out[j].author@].1
    } by {
        let q = choose|q: int| 0 <= q < whole.len() && #[trigger] whole[q] == #[trigger] out[j];
        assert(whole[q].author@ == names[q]@);
        assert(m.contains_key(names[q]@) && m[names[q]@].1 == whole[q].time);
    }
    assert forall|a: Seq<char>| #[trigger] m.contains_key(a) implies exists|j: int|
        0 <= j < out.len() && #[trigger] out[j].author@ == a by {
        let q = choose|q: int| 0 <= q < names.len() && #[trigger] names[q]@ == a;
        assert(whole[q].author@ == a);
        assert(kept(whole[q], false));
        let j = choose|j: int| 0 <= j < out.len() && #[trigger] out[j] == whole[q];
        assert(out[j].author@ == a);
    }
}

/// Estimates the minutes of each author over the commits, walked in the given order.
fn estimate_walk(commits: &Vec<CommitInfo>) -> (res: Result<Vec<CommitTime>, Error>)
    requires
        commits@.len() * SESSION_START_ADDITION_IN_MINUTES <= usize::MAX,
    ensures
        match estimate_sessions(commits@) {
            Err(e) => res == Err::<Vec<CommitTime>, Error>(e),
            Ok(m) => res is Ok && estimates_match(m, res->Ok_0@),
        },
{
    let (names, totals) = match tally_sessions(commits) {
        Ok(t) => t,
        Err(e) => return Err(e),
    };
    let ghost m = estimate_sessions(commits@)->Ok_0;
    let all = collect_times(&names, &totals);
    let ghost whole = all@;
    assert forall|j: int| 0 <= j < whole.len() implies {
        &&& #[trigger] m.contains_key(names@[j]@)
        &&& m[names@[j]@].1 == whole[j].time
    } by {
        assert(whole[j].author@ == names@[j]@ && whole[j].time == totals@[j]);
    }
    let out = order_times(all);
    proof {
        lemma_ordered_times(m, names@, whole, out@);
    }
    Ok(out)
}

/// Zipping the statistics and the estimates of one history pairs every estimate but that of the
/// CS 252 account: each author but the CS 252 account gets exactly one report.
pub proof fn lemma_zip_pairs_every_author(s: Seq<CommitInfo>, stats: Seq<CommitStats>, times: Seq<CommitTime>)
    requires
        commit_stats_of(s, stats),
        estimate_sessions(s) is Ok,
        estimates_match(estimate_sessions(s)->Ok_0, times),
    ensures
        forall|j: int|
            0 <= j < times.len() ==> (is_first_match(stats, times, j) <==> !is_course_account(
                #[trigger] times[j].author@,
            )),
{
    let m = estimate_sessions(s)->Ok_0;
    assert forall|j: int| 0 <= j < times.len() implies (is_first_match(stats, times, j) <==> !is_course_account(
        #[trigger] times[j].author@,
    )) by {
        let a = times[j].author@;
        assert(m.contains_key(a));
        lemma_estimate_bounds(s, a);
        lemma_last_index_of_author(stats, a);
        assert forall|k: int| 0 <= k < j implies #[trigger] times[k].author_name() != times[j].author_name() by {
            assert(times[k].author_name() != times[j].author_name());
        }
        if !is_course_account(a) {
            let k = choose|k: int| 0 <= k < stats.len() && #[trigger] stats[k].author@ == a;
            assert(stats[k].author_name() == a);
        } else {
            if last_index_of_author(stats, a) >= 0 {
                let li = last_index_of_author(stats, a);
                assert(!is_course_account(stats[li].author@));
            }
        }
    }
}

/// The two histories list commits by the same authors in the same order; their diffs and times
/// may differ (as two walks of one repository under different pathspecs do).
pub open spec fn same_authors(s1: Seq<CommitInfo>, s2: Seq<CommitInfo>) -> bool {
    &&& s1.len() == s2.len()
    &&& forall|i: int| 0 <= i < s1.len() ==> #[trigger] s1[i].author == s2[i].author
}

/// Commit counts depend on the authors alone.
pub proof fn lemma_counts_ignore_diffs(s1: Seq<CommitInfo>, s2: Seq<CommitInfo>, a: Seq<char>)
    requires
        same_authors(s1, s2),
    ensures
        commit_count(s1, a) == commit_count(s2, a),
    decreases s1.len(),
{
    if s1.len() > 0 {
        assert(s1.last().author == s2.last().author);
        assert(same_authors(s1.drop_last(), s2.drop_last())) by {
            assert forall|i: int| 0 <= i < s1.len() - 1 implies #[trigger] s1.drop_last()[i].author == s2.drop_last()[i].author by {
                assert(s1[i].author == s2[i].author);
            }
        }
        lemma_counts_ignore_diffs(s1.drop_last(), s2.drop_last(), a);
    }
}

/// Every entry of `v1` has an entry of `v2` with the same author and the same count.
pub open spec fn counts_included(v1: Seq<CommitStats>, v2: Seq<CommitStats>) -> bool {
    forall|k1: int| 0 <= k1 < v1.len() ==> #[trigger] has_same_count(v2, v1[k1])
}

/// Some entry of `v` belongs to the author of `x` and has the same count.
pub open spec fn has_same_count(v: Seq<CommitStats>, x: CommitStats) -> bool {
    exists|k: int| 0 <= k < v.len() && #[trigger] same_author_count(v[k], x)
}

/// The two entries belong to the same author and have the same count.
pub open spec fn same_author_count(x: CommitStats, y: CommitStats) -> bool {
    x.author@ == y.author@ && x.count == y.count
}

/// The statistics of two walks that differ only in the lines they count (another pathspec)
/// list the same authors with the same commit counts: only insertions and deletions differ.
pub proof fn lemma_commit_counts_ignore_pathspec(
    s1: Seq<CommitInfo>,
    s2: Seq<CommitInfo>,
    v1: Seq<CommitStats>,
    v2: Seq<CommitStats>,
)
    requires
        same_authors(s1, s2),
        commit_stats_of(s1, v1),
        commit_stats_of(s2, v2),
    ensures
        counts_included(v1, v2),
        counts_included(v2, v1),
{
    assert(counts_included(v1, v2)) by {
        assert forall|k1: int| 0 <= k1 < v1.len() implies #[trigger] has_same_count(v2, v1[k1]) by {
            let a = v1[k1].author@;
            assert(stats_match(s1, v1[k1]));
            lemma_counts_ignore_diffs(s1, s2, a);
            assert(commit_count(s2, a) > 0);
            let k2 = choose|k2: int| 0 <= k2 < v2.len() && #[trigger] v2[k2].author@ == a;
            assert(stats_match(s2, v2[k2]));
            assert(same_author_count(v2[k2], v1[k1]));
        }
    }
    assert(counts_included(v2, v1)) by {
        assert forall|k2: int| 0 <= k2 < v2.len() implies #[trigger] has_same_count(v1, v2[k2]) by {
            let a = v2[k2].author@;
            assert(stats_match(s2, v2[k2]));
            lemma_counts_ignore_diffs(s1, s2, a);
            assert(commit_count(s1, a) > 0);
            let k1 = choose|k1: int| 0 <= k1 < v1.len() && #[trigger] v1[k1].author@ == a;
            assert(stats_match(s1, v1[k1]));
            assert(same_author_count(v1[k1], v2[k2]));
        }
    }
}

/// Every commit time of the history is representable.
pub open spec fn all_times_in_range(s: Seq<CommitInfo>) -> bool {
    forall|i: int| 0 <= i < s.len() ==> timestamp_in_range(#[trigger] s[i].seconds as int)
}

/// The times of the commits of `s` filed under `a`, in walk order.
pub open spec fn author_times(s: Seq<CommitInfo>, a: Seq<char>) -> Seq<i64>
    decreases s.len(),
{
    if s.len() == 0 {
        Seq::<i64>::empty()
    } else if author_key(s.last()) == a {
        author_times(s.drop_last(), a).push(s.last().seconds)
    } else {
        author_times(s.drop_last(), a)
    }
}

/// The minutes estimated for one author whose commits, walked in order, have times `t`: one
/// session start for the first, and `session_minutes` for each next one.
pub open spec fn chain_minutes(t: Seq<i64>) -> nat
    decreases t.len(),
{
    if t.len() == 0 {
        0
    } else if t.len() == 1 {
        SESSION_START_ADDITION_IN_MINUTES as nat
    } else {
        chain_minutes(t.drop_last()) + session_minutes(t[t.len() - 2] as int, t.last() as int)
    }
}

/// When every time is representable, the walk succeeds, and each author's estimate is that of the
/// chain of their own commit times.
pub proof fn lemma_estimate_per_author(s: Seq<CommitInfo>, a: Seq<char>)
    requires
        all_times_in_range(s),
    ensures
        estimate_sessions(s) is Ok,
        estimate_sessions(s)->Ok_0.contains_key(a) <==> author_times(s, a).len() > 0,
        author_times(s, a).len() > 0 ==> estimate_sessions(s)->Ok_0[a] == (
            author_times(s, a).last(),
            chain_minutes(author_times(s, a)),
        ),
        forall|j: int|
            0 <= j < author_times(s, a).len() ==> timestamp_in_range(#[trigger] author_times(s, a)[j] as int),
    decreases s.len(),
{
    if s.len() > 0 {
        let p = s.drop_last();
        let c = s.last();
        let b = author_key(c);
        assert(all_times_in_range(p)) by {
            assert forall|i: int| 0 <= i < p.len() implies timestamp_in_range(#[trigger] p[i].seconds as int) by {
                assert(p[i] == s[i]);
            }
        }
        assert(timestamp_in_range(c.seconds as int)) by {
            assert(c == s[s.len() - 1]);
        }
        lemma_estimate_per_author(p, a);
        lemma_estimate_per_author(p, b);
        let m = estimate_sessions(p)->Ok_0;
        if m.contains_key(b) {
            let t = author_times(p, b);
            assert(timestamp_in_range(t[t.len() - 1] as int));
        }
        if a == b {
            let t = author_times(p, a);
            let u = author_times(s, a);
            assert(u == t.push(c.seconds));
            if t.len() > 0 {
                assert(u.drop_last() =~= t);
                assert(u[u.len() - 2] == t.last());
            } else {
                assert(u =~= seq![c.seconds]);
            }
            assert forall|j: int| 0 <= j < u.len() implies timestamp_in_range(#[trigger] u[j] as int) by {
                if j < t.len() {
                    assert(u[j] == t[j]);
                }
            }
        }
    }
}

/// Putting a commit in front of a history puts its time in front of its author's times.
pub proof fn lemma_author_times_prepend(x: CommitInfo, t: Seq<CommitInfo>, a: Seq<char>)
    ensures
        author_times(seq![x] + t, a) == (if author_key(x) == a {
            seq![x.seconds]
        } else {
            Seq::<i64>::empty()
        }) + author_times(t, a),
    decreases t.len(),
{
    let u = seq![x] + t;
    if t.len() == 0 {
        assert(u.len() == 1);
        assert(u.last() == x);
        assert(u.drop_last() =~= Seq::<CommitInfo>::empty());
        assert(author_times(u.drop_last(), a) =~= Seq::<i64>::empty());
        assert(author_times(t, a) =~= Seq::<i64>::empty());
        if author_key(x) == a {
            assert(author_times(u, a) =~= seq![x.seconds]);
        } else {
            assert(author_times(u, a) =~= Seq::<i64>::empty());
        }
        assert((if author_key(x) == a { seq![x.seconds] } else { Seq::<i64>::empty() }) + Seq::<i64>::empty()
            =~= (if author_key(x) == a { seq![x.seconds] } else { Seq::<i64>::empty() }));
    } else {
        assert(u.drop_last() =~= seq![x] + t.drop_last());
        assert(u.last() == t.last());
        lemma_author_times_prepend(x, t.drop_last(), a);
        let pre = if author_key(x) == a { seq![x.seconds] } else { Seq::<i64>::empty() };
        if author_key(t.last()) == a {
            assert((pre + author_times(t.drop_last(), a)).push(t.last().seconds) =~= pre + author_times(t.drop_last(), a).push(t.last().seconds));
        }
    }
}

/// Walking the history backwards walks each author's commits backwards.
pub proof fn lemma_author_times_reverse(s: Seq<CommitInfo>, a: Seq<char>)
    ensures
        author_times(s.reverse(), a) == author_times(s, a).reverse(),
    decreases s.len(),
{
    if s.len() == 0 {
        assert(s.reverse() =~= s);
        assert(author_times(s, a).reverse() =~= Seq::<i64>::empty());
    } else {
        let p = s.drop_last();
        assert(s.reverse() =~= seq![s.last()] + p.reverse());
        lemma_author_times_prepend(s.last(), p.reverse(), a);
        lemma_author_times_reverse(p, a);
        if author_key(s.last()) == a {
            assert(author_times(s, a).reverse() =~= seq![s.last().seconds] + author_times(p, a).reverse());
        } else {
            assert(author_times(s, a).reverse() =~= Seq::<i64>::empty() + author_times(p, a).reverse());
        }
    }
}


/// Get the estimate of working minutes spent on the history, for each author
///
/// This function implements the git-hours algorithm: each author's commits, taken in time order,
/// are grouped into sessions; a commit less than `MAX_SESSION_IDLE_IN_MINUTES` after the
/// author's previous commit adds the minutes between them, any other commit starts a session
/// and adds `SESSION_START_ADDITION_IN_MINUTES`. The result is sorted by number of minutes
/// worked (descending order). A commit time that cannot be represented as a date stops the
/// estimate with an error once it is compared with another commit of its author.
///
/// * `commits` - the commits of the history, in any order
pub fn get_estimate_minutes(commits: &Vec<CommitInfo>) -> (res: Result<Vec<CommitTime>, Error>)
    requires
        commits@.len() * SESSION_START_ADDITION_IN_MINUTES <= usize::MAX,
    ensures
        exists|t: Seq<CommitInfo>| #[trigger] is_time_ordering(commits@, t) && match estimate_sessions(t) {
            Err(e) => res == Err::<Vec<CommitTime>, Error>(e),
            Ok(m) => res is Ok && estimates_match(m, res->Ok_0@),
        },
        all_times_in_range(commits@) ==> res is Ok && estimates_in_time_order(commits@, res->Ok_0@),
{
    let ordered = order_by_seconds(commits);
    let ghost t = ordered@;
    let res = estimate_walk(&ordered);
    proof {
        if all_times_in_range(commits@) {
            lemma_estimates_in_time_order(commits@, t, res->Ok_0@);
        }
    }
    res
}

} // verus!
