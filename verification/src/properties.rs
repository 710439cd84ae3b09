use vstd::prelude::*;
use crate::constants::CS252_USER_NAME;
use crate::git::{
    author_key, commit_count, commit_stats_of, deletion_total, insertion_total, is_course_account,
    author_times, chain_minutes, session_minutes, stats_match, CommitInfo,
};
use crate::timeline::{
    estimates_in_time_order, lemma_author_times_contains, lemma_time_order_total, time_order,
    times_in_order,
};
use crate::structs::{CommitStats, CommitTime};

verus! {

/// The course account is the author named exactly `CS252`: every other name, however close to
/// it, is an ordinary author.
pub proof fn lemma_course_account_is_exact_name(name: Seq<char>)
    ensures
        is_course_account(name) <==> name == seq!['C', 'S', '2', '5', '2'],
{
    reveal_strlit("CS252");
    assert(CS252_USER_NAME@ == "CS252"@);
    assert("CS252"@ =~= seq!['C', 'S', '2', '5', '2']);
}

/// A commit is filed under its author's name, and under `-` when it has none.
pub proof fn lemma_commit_filed_under_author(c: CommitInfo)
    ensures
        c.author matches Some(name) ==> author_key(c) == name@,
        c.author is None ==> author_key(c) == seq!['-'],
{
    reveal_strlit("-");
    assert("-"@ =~= seq!['-']);
}

/// The minutes a commit adds after its author's previous one: the whole minutes between them
/// (rounded down, a gap of under a minute adding nothing) while fewer than fifteen, and fifteen,
/// a new session's start, from fifteen minutes on.
pub proof fn lemma_session_minutes_rule(previous: int, current: int)
    ensures
        ({
            let gap = (if current >= previous { current - previous } else { previous - current }) / 60;
            session_minutes(previous, current) == if gap < 15 { gap } else { 15 }
        }),
{
}

/// Lines a commit inserted, as git reported them (none when it could not compute them).
pub open spec fn inserted_lines(c: CommitInfo) -> int {
    match c.diff_stats {
        Some(d) => d.0 as int,
        None => 0,
    }
}

/// Lines a commit deleted, as git reported them (none when it could not compute them).
pub open spec fn deleted_lines(c: CommitInfo) -> int {
    match c.diff_stats {
        Some(d) => d.1 as int,
        None => 0,
    }
}

/// An author without commits in `s` has no count and no changed lines there.
proof fn lemma_absent_author_totals(s: Seq<CommitInfo>, a: Seq<char>)
    requires
        forall|k: int| 0 <= k < s.len() ==> author_key(#[trigger] s[k]) != a,
    ensures
        commit_count(s, a) == 0,
        insertion_total(s, a) == 0,
        deletion_total(s, a) == 0,
    decreases s.len(),
{
    if s.len() > 0 {
        let p = s.drop_last();
        assert forall|k: int| 0 <= k < p.len() implies author_key(#[trigger] p[k]) != a by {
            assert(p[k] == s[k]);
        }
        lemma_absent_author_totals(p, a);
        assert(author_key(s[s.len() - 1]) != a);
    }
}

/// An author with a commit in `s` has a positive count there.
proof fn lemma_present_author_counted(s: Seq<CommitInfo>, k: int)
    requires
        0 <= k < s.len(),
    ensures
        commit_count(s, author_key(s[k])) > 0,
    decreases s.len(),
{
    if k < s.len() - 1 {
        let p = s.drop_last();
        assert(p[k] == s[k]);
        lemma_present_author_counted(p, k);
    }
}

/// One more commit adds to its author's statistics exactly one commit, the lines it inserted
/// and the lines it deleted, whatever either of the two numbers is.
pub proof fn lemma_stats_next_commit(
    s: Seq<CommitInfo>,
    c: CommitInfo,
    v: Seq<CommitStats>,
    w: Seq<CommitStats>,
    i: int,
    j: int,
)
    requires
        commit_stats_of(s, v),
        commit_stats_of(s.push(c), w),
        0 <= i < v.len(),
        0 <= j < w.len(),
        v[i].author@ == author_key(c),
        w[j].author@ == author_key(c),
    ensures
        w[j].count == v[i].count + 1,
        w[j].insertions == v[i].insertions + inserted_lines(c),
        w[j].deletions == v[i].deletions + deleted_lines(c),
{
    assert(stats_match(s, v[i]));
    assert(stats_match(s.push(c), w[j]));
    assert(s.push(c).drop_last() =~= s);
}

/// An author's first commit gives them one commit, the lines it inserted and the lines it
/// deleted.
pub proof fn lemma_stats_first_commit(s: Seq<CommitInfo>, c: CommitInfo, w: Seq<CommitStats>, j: int)
    requires
        forall|k: int| 0 <= k < s.len() ==> author_key(#[trigger] s[k]) != author_key(c),
        commit_stats_of(s.push(c), w),
        0 <= j < w.len(),
        w[j].author@ == author_key(c),
    ensures
        w[j].count == 1,
        w[j].insertions == inserted_lines(c),
        w[j].deletions == deleted_lines(c),
{
    lemma_absent_author_totals(s, author_key(c));
    assert(stats_match(s.push(c), w[j]));
    assert(s.push(c).drop_last() =~= s);
}

/// One more commit leaves the statistics of every other author as they were.
pub proof fn lemma_stats_other_authors_unchanged(
    s: Seq<CommitInfo>,
    c: CommitInfo,
    v: Seq<CommitStats>,
    w: Seq<CommitStats>,
    i: int,
    j: int,
)
    requires
        commit_stats_of(s, v),
        commit_stats_of(s.push(c), w),
        0 <= i < v.len(),
        0 <= j < w.len(),
        v[i].author@ == w[j].author@,
        w[j].author@ != author_key(c),
    ensures
        w[j].count == v[i].count,
        w[j].insertions == v[i].insertions,
        w[j].deletions == v[i].deletions,
{
    assert(stats_match(s, v[i]));
    assert(stats_match(s.push(c), w[j]));
    assert(s.push(c).drop_last() =~= s);
    assert(w[j].author@ == v[i].author@);
}

/// The statistics leave out the author named `CS252` and no other: every other author with a
/// commit has an entry, and no entry belongs to `CS252`.
pub proof fn lemma_stats_drop_only_course_account(s: Seq<CommitInfo>, v: Seq<CommitStats>)
    requires
        commit_stats_of(s, v),
    ensures
        forall|k: int| 0 <= k < s.len() && author_key(#[trigger] s[k]) != seq!['C', 'S', '2', '5', '2'] ==>
            exists|i: int| 0 <= i < v.len() && #[trigger] v[i].author@ == author_key(s[k]),
        forall|i: int| 0 <= i < v.len() ==> #[trigger] v[i].author@ != seq!['C', 'S', '2', '5', '2'],
{
    assert forall|k: int| 0 <= k < s.len() && author_key(#[trigger] s[k]) != seq!['C', 'S', '2', '5', '2'] implies
        exists|i: int| 0 <= i < v.len() && #[trigger] v[i].author@ == author_key(s[k]) by {
        lemma_course_account_is_exact_name(author_key(s[k]));
        lemma_present_author_counted(s, k);
    }
    assert forall|i: int| 0 <= i < v.len() implies #[trigger] v[i].author@ != seq!['C', 'S', '2', '5', '2'] by {
        lemma_course_account_is_exact_name(v[i].author@);
    }
}

/// `v` is the time of one of the commits of `s` filed under `a`.
pub open spec fn is_author_time(s: Seq<CommitInfo>, a: Seq<char>, v: i64) -> bool {
    exists|k: int| 0 <= k < s.len() && author_key(#[trigger] s[k]) == a && s[k].seconds == v
}

/// Each time of an author is that of one of the author's commits.
proof fn lemma_author_times_from(s: Seq<CommitInfo>, a: Seq<char>)
    ensures
        forall|j: int| 0 <= j < author_times(s, a).len() ==> is_author_time(s, a, #[trigger] author_times(s, a)[j]),
    decreases s.len(),
{
    if s.len() > 0 {
        let p = s.drop_last();
        lemma_author_times_from(p, a);
        assert forall|j: int| 0 <= j < author_times(s, a).len() implies is_author_time(s, a, #[trigger] author_times(s, a)[j]) by {
            if author_key(s.last()) == a {
                assert(author_times(s, a) == author_times(p, a).push(s.last().seconds));
            } else {
                assert(author_times(s, a) == author_times(p, a));
            }
            if j < author_times(p, a).len() {
                assert(author_times(s, a)[j] == author_times(p, a)[j]);
                assert(is_author_time(p, a, author_times(p, a)[j]));
                let k = choose|k: int| 0 <= k < p.len() && author_key(#[trigger] p[k]) == a && p[k].seconds == author_times(p, a)[j];
                assert(s[k] == p[k]);
            } else {
                assert(author_key(s[s.len() - 1]) == a);
                assert(s[s.len() - 1].seconds == author_times(s, a)[j]);
            }
        }
    }
}

/// A commit no earlier than any other of its author's comes last among that author's times in
/// order.
proof fn lemma_times_in_order_push(s: Seq<CommitInfo>, c: CommitInfo)
    requires
        forall|k: int| 0 <= k < s.len() && author_key(#[trigger] s[k]) == author_key(c) ==> s[k].seconds <= c.seconds,
    ensures
        times_in_order(s.push(c), author_key(c)) == times_in_order(s, author_key(c)).push(c.seconds),
{
    broadcast use vstd::seq_lib::group_to_multiset_ensures;
    let a = author_key(c);
    assert(s.push(c).drop_last() =~= s);
    let x = author_times(s, a);
    assert(author_times(s.push(c), a) == x.push(c.seconds));
    lemma_time_order_total();
    x.lemma_sort_by_ensures(time_order());
    x.push(c.seconds).lemma_sort_by_ensures(time_order());
    let t = x.sort_by(time_order());
    let y = t.push(c.seconds);
    lemma_author_times_from(s, a);
    assert forall|i: int, j: int| 0 <= i < j < y.len() implies (time_order())(y[i], y[j]) by {
        if j == y.len() - 1 {
            assert(t.contains(t[i]));
            assert(x.contains(t[i]));
            let m = choose|m: int| 0 <= m < x.len() && x[m] == t[i];
            assert(is_author_time(s, a, x[m]));
        } else {
            assert(y[i] == t[i] && y[j] == t[j]);
        }
    }
    assert(vstd::relations::sorted_by(y, time_order()));
    assert(y.to_multiset() =~= x.push(c.seconds).to_multiset());
    vstd::seq_lib::lemma_sorted_unique(x.push(c.seconds).sort_by(time_order()), y, time_order());
}

/// A commit that comes after its author's latest one, `s[k]`, adds to that author's estimate the
/// whole minutes since `s[k]` while fewer than fifteen (a gap of under a minute adding nothing),
/// and fifteen minutes, the start of a new session, from fifteen on.
pub proof fn lemma_estimate_next_commit(
    s: Seq<CommitInfo>,
    c: CommitInfo,
    v: Seq<CommitTime>,
    w: Seq<CommitTime>,
    i: int,
    j: int,
    k: int,
)
    requires
        estimates_in_time_order(s, v),
        estimates_in_time_order(s.push(c), w),
        0 <= i < v.len(),
        0 <= j < w.len(),
        v[i].author@ == author_key(c),
        w[j].author@ == author_key(c),
        0 <= k < s.len(),
        author_key(s[k]) == author_key(c),
        forall|m: int| 0 <= m < s.len() && author_key(#[trigger] s[m]) == author_key(c) ==> s[m].seconds <= s[k].seconds,
        s[k].seconds <= c.seconds,
    ensures
        ({
            let gap = (c.seconds - s[k].seconds) / 60;
            w[j].time == v[i].time + if gap < 15 { gap } else { 15 }
        }),
{
    broadcast use vstd::seq_lib::group_to_multiset_ensures;
    let a = author_key(c);
    lemma_times_in_order_push(s, c);
    let x = author_times(s, a);
    let t = times_in_order(s, a);
    lemma_time_order_total();
    x.lemma_sort_by_ensures(time_order());
    lemma_author_times_contains(s, k);
    assert(x.contains(s[k].seconds));
    assert(x.to_multiset().count(s[k].seconds) > 0);
    assert(t.to_multiset().count(s[k].seconds) > 0);
    assert(t.contains(s[k].seconds));
    assert(t.len() > 0);
    lemma_author_times_from(s, a);
    assert(t.contains(t.last()));
    assert(x.contains(t.last()));
    let m = choose|m: int| 0 <= m < x.len() && x[m] == t.last();
    assert(is_author_time(s, a, x[m]));
    let r = choose|r: int| 0 <= r < t.len() && t[r] == s[k].seconds;
    if r < t.len() - 1 {
        assert((time_order())(t[r], t[t.len() - 1]));
    }
    assert(t.last() == s[k].seconds);
    let u = t.push(c.seconds);
    assert(u.drop_last() =~= t);
    assert(chain_minutes(u) == chain_minutes(t) + session_minutes(t.last() as int, c.seconds as int));
    lemma_session_minutes_rule(s[k].seconds as int, c.seconds as int);
}

/// An author's first commit gives them fifteen minutes, one session start.
pub proof fn lemma_estimate_first_commit(s: Seq<CommitInfo>, c: CommitInfo, w: Seq<CommitTime>, j: int)
    requires
        forall|k: int| 0 <= k < s.len() ==> author_key(#[trigger] s[k]) != author_key(c),
        estimates_in_time_order(s.push(c), w),
        0 <= j < w.len(),
        w[j].author@ == author_key(c),
    ensures
        w[j].time == 15,
{
    let a = author_key(c);
    lemma_author_times_from(s, a);
    if author_times(s, a).len() > 0 {
        let e = author_times(s, a)[0];
        assert(is_author_time(s, a, e));
    }
    lemma_times_in_order_push(s, c);
    assert(times_in_order(s, a).len() == 0) by {
        broadcast use vstd::seq_lib::group_to_multiset_ensures;
        lemma_time_order_total();
        author_times(s, a).lemma_sort_by_ensures(time_order());
        assert(author_times(s, a).to_multiset().len() == 0);
    }
    assert(times_in_order(s.push(c), a) =~= seq![c.seconds]);
}

/// One more commit leaves the estimate of every other author as it was.
pub proof fn lemma_estimate_other_authors_unchanged(
    s: Seq<CommitInfo>,
    c: CommitInfo,
    v: Seq<CommitTime>,
    w: Seq<CommitTime>,
    i: int,
    j: int,
)
    requires
        estimates_in_time_order(s, v),
        estimates_in_time_order(s.push(c), w),
        0 <= i < v.len(),
        0 <= j < w.len(),
        v[i].author@ == w[j].author@,
        w[j].author@ != author_key(c),
    ensures
        w[j].time == v[i].time,
{
    assert(s.push(c).drop_last() =~= s);
    assert(author_times(s.push(c), w[j].author@) == author_times(s, w[j].author@));
}

} // verus!
