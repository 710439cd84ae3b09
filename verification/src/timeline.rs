use vstd::prelude::*;
use crate::datetime::timestamp_in_range;
use crate::git::{
    all_times_in_range, author_key, author_times, chain_minutes, distinct_authors, estimate_sessions,
    estimates_match, lemma_author_times_prepend, lemma_author_times_reverse, lemma_estimate_per_author,
    sorted_by_time, CommitInfo,
};
use crate::structs::CommitTime;

verus! {

/// No commit of `t` is later than one after it.
pub open spec fn sorted_by_seconds(t: Seq<CommitInfo>) -> bool {
    forall|i: int, j: int| 0 <= i < j < t.len() ==> #[trigger] t[i].seconds <= #[trigger] t[j].seconds
}

/// `t` holds the commits of `s` ordered by time: as many commits, oldest first, and each author
/// with the same commit times.
pub open spec fn is_time_ordering(s: Seq<CommitInfo>, t: Seq<CommitInfo>) -> bool {
    &&& t.len() == s.len()
    &&& sorted_by_seconds(t)
    &&& forall|a: Seq<char>| #[trigger] author_times(t, a).to_multiset() == author_times(s, a).to_multiset()
}

/// The order of commit times: earlier first.
pub open spec fn time_order() -> spec_fn(i64, i64) -> bool {
    |x: i64, y: i64| x <= y
}

/// The times of the commits of `s` filed under `a`, oldest first.
pub open spec fn times_in_order(s: Seq<CommitInfo>, a: Seq<char>) -> Seq<i64> {
    author_times(s, a).sort_by(time_order())
}

/// Copies a commit record.
fn copy_commit(c: &CommitInfo) -> (res: CommitInfo)
    ensures
        res == *c,
{
    let author = match &c.author {
        Some(a) => Some(a.clone()),
        None => None,
    };
    CommitInfo { author, seconds: c.seconds, diff_stats: c.diff_stats }
}

/// An author's times over two histories one after the other are their times over the first,
/// then over the second.
proof fn lemma_author_times_concat(x: Seq<CommitInfo>, y: Seq<CommitInfo>, a: Seq<char>)
    ensures
        author_times(x + y, a) == author_times(x, a) + author_times(y, a),
    decreases y.len(),
{
    if y.len() == 0 {
        assert(x + y =~= x);
        assert(author_times(x, a) + author_times(y, a) =~= author_times(x, a));
    } else {
        assert((x + y).drop_last() =~= x + y.drop_last());
        assert((x + y).last() == y.last());
        lemma_author_times_concat(x, y.drop_last(), a);
        if author_key(y.last()) == a {
            assert(author_times(x, a) + author_times(y.drop_last(), a).push(y.last().seconds)
                =~= (author_times(x, a) + author_times(y.drop_last(), a)).push(y.last().seconds));
        }
    }
}

/// Inserting a commit anywhere adds its time to its author's times.
proof fn lemma_author_times_insert(u: Seq<CommitInfo>, p: int, x: CommitInfo, a: Seq<char>)
    requires
        0 <= p <= u.len(),
    ensures
        author_times(u.insert(p, x), a).to_multiset() == (if author_key(x) == a {
            author_times(u, a).to_multiset().insert(x.seconds)
        } else {
            author_times(u, a).to_multiset()
        }),
{
    broadcast use vstd::seq_lib::group_to_multiset_ensures;
    let front = u.take(p);
    let back = u.skip(p);
    assert(u.insert(p, x) =~= front + (seq![x] + back));
    assert(u =~= front + back);
    lemma_author_times_concat(front, seq![x] + back, a);
    lemma_author_times_concat(front, back, a);
    lemma_author_times_prepend(x, back, a);
    let pre = if author_key(x) == a { seq![x.seconds] } else { Seq::<i64>::empty() };
    vstd::seq_lib::lemma_multiset_commutative(author_times(front, a), author_times(seq![x] + back, a));
    vstd::seq_lib::lemma_multiset_commutative(pre, author_times(back, a));
    vstd::seq_lib::lemma_multiset_commutative(author_times(front, a), author_times(back, a));
    if author_key(x) == a {
        assert(pre =~= Seq::<i64>::empty().push(x.seconds));
        assert(Seq::<i64>::empty().to_multiset() =~= vstd::multiset::Multiset::<i64>::empty());
        assert(pre.to_multiset() =~= vstd::multiset::Multiset::<i64>::empty().insert(x.seconds));
    } else {
        assert(pre.to_multiset() =~= vstd::multiset::Multiset::<i64>::empty());
    }
    assert(author_times(u.insert(p, x), a).to_multiset() =~= (if author_key(x) == a {
        author_times(u, a).to_multiset().insert(x.seconds)
    } else {
        author_times(u, a).to_multiset()
    }));
}

/// `v` is the time of one of the commits of `s`.
pub open spec fn is_commit_time(s: Seq<CommitInfo>, v: i64) -> bool {
    exists|i: int| 0 <= i < s.len() && #[trigger] s[i].seconds == v
}

/// Every time of an author is the time of one of the history's commits.
proof fn lemma_author_times_elements(s: Seq<CommitInfo>, a: Seq<char>)
    ensures
        forall|j: int| 0 <= j < author_times(s, a).len() ==> is_commit_time(s, #[trigger] author_times(s, a)[j]),
    decreases s.len(),
{
    if s.len() > 0 {
        let p = s.drop_last();
        lemma_author_times_elements(p, a);
        let u = author_times(s, a);
        assert forall|j: int| 0 <= j < u.len() implies is_commit_time(s, #[trigger] u[j]) by {
            if j < author_times(p, a).len() {
                assert(u[j] == author_times(p, a)[j]);
                assert(is_commit_time(p, author_times(p, a)[j]));
                let i = choose|i: int| 0 <= i < p.len() && #[trigger] p[i].seconds == author_times(p, a)[j];
                assert(s[i] == p[i]);
            } else {
                assert(s[s.len() - 1].seconds == u[j]);
            }
        }
    }
}

/// Each commit's time is among its author's times.
pub(crate) proof fn lemma_author_times_contains(s: Seq<CommitInfo>, i: int)
    requires
        0 <= i < s.len(),
    ensures
        author_times(s, author_key(s[i])).contains(s[i].seconds),
    decreases s.len(),
{
    let a = author_key(s[i]);
    let p = s.drop_last();
    if i == s.len() - 1 {
        let u = author_times(s, a);
        assert(u.last() == s[i].seconds);
    } else {
        lemma_author_times_contains(p, i);
        assert(p[i] == s[i]);
        let j = choose|j: int| 0 <= j < author_times(p, a).len() && author_times(p, a)[j] == s[i].seconds;
        assert(author_times(s, a)[j] == s[i].seconds);
    }
}

/// A history ordered by time gives each author's times in order.
proof fn lemma_author_times_sorted(t: Seq<CommitInfo>, a: Seq<char>)
    requires
        sorted_by_seconds(t),
    ensures
        vstd::relations::sorted_by(author_times(t, a), time_order()),
    decreases t.len(),
{
    if t.len() > 0 {
        let p = t.drop_last();
        assert(sorted_by_seconds(p)) by {
            assert forall|i: int, j: int| 0 <= i < j < p.len() implies #[trigger] p[i].seconds <= #[trigger] p[j].seconds by {
                assert(p[i] == t[i] && p[j] == t[j]);
            }
        }
        lemma_author_times_sorted(p, a);
        lemma_author_times_elements(p, a);
        let v = author_times(p, a);
        let u = author_times(t, a);
        if author_key(t.last()) == a {
            assert forall|i: int, j: int| 0 <= i < j < u.len() implies #[trigger] (time_order())(u[i], u[j]) by {
                if j < v.len() {
                    assert(u[i] == v[i] && u[j] == v[j]);
                    assert((time_order())(v[i], v[j]));
                } else {
                    assert(u[i] == v[i]);
                    assert(is_commit_time(p, v[i]));
                    let k = choose|k: int| 0 <= k < p.len() && #[trigger] p[k].seconds == v[i];
                    assert(t[k] == p[k]);
                    assert(t[k].seconds <= t[t.len() - 1].seconds);
                }
            }
        }
    }
}

/// Over a time ordering, each author's times are those of the history, oldest first.
pub proof fn lemma_author_times_of_ordering(s: Seq<CommitInfo>, t: Seq<CommitInfo>, a: Seq<char>)
    requires
        is_time_ordering(s, t),
    ensures
        author_times(t, a) == times_in_order(s, a),
{
    lemma_same_times_same_order(t, s, a);
    lemma_author_times_sorted(t, a);
    lemma_in_order_of_sorted(author_times(t, a));
}

/// The total order on times.
pub(crate) proof fn lemma_time_order_total()
    ensures
        vstd::relations::total_ordering(time_order()),
{
    let r = time_order();
    assert(vstd::relations::reflexive(r));
    assert(vstd::relations::antisymmetric(r));
    assert(vstd::relations::transitive(r));
    assert(vstd::relations::strongly_connected(r));
}

/// Two histories whose authors have the same commit times give each author the same times in
/// order.
pub proof fn lemma_same_times_same_order(s1: Seq<CommitInfo>, s2: Seq<CommitInfo>, a: Seq<char>)
    requires
        author_times(s1, a).to_multiset() == author_times(s2, a).to_multiset(),
    ensures
        times_in_order(s1, a) == times_in_order(s2, a),
{
    lemma_time_order_total();
    author_times(s1, a).lemma_sort_by_ensures(time_order());
    author_times(s2, a).lemma_sort_by_ensures(time_order());
    vstd::seq_lib::lemma_sorted_unique(times_in_order(s1, a), times_in_order(s2, a), time_order());
}

/// Sorting times that are already in order leaves them as they are.
proof fn lemma_in_order_of_sorted(v: Seq<i64>)
    requires
        vstd::relations::sorted_by(v, time_order()),
    ensures
        v.sort_by(time_order()) == v,
{
    lemma_time_order_total();
    v.lemma_sort_by_ensures(time_order());
    vstd::seq_lib::lemma_sorted_unique(v.sort_by(time_order()), v, time_order());
}

/// Orders the commits by time, oldest first (commits of the same second keep their walk order).
pub(crate) fn order_by_seconds(commits: &Vec<CommitInfo>) -> (res: Vec<CommitInfo>)
    ensures
        is_time_ordering(commits@, res@),
{
    broadcast use vstd::seq_lib::group_to_multiset_ensures;
    let ghost s = commits@;
    let mut t: Vec<CommitInfo> = Vec::new();
    let mut i: usize = 0;
    assert(s.take(0) =~= Seq::<CommitInfo>::empty());
    while i < commits.len()
        invariant
            s == commits@,
            i <= s.len(),
            t.len() == i,
            sorted_by_seconds(t@),
            forall|a: Seq<char>| #[trigger] author_times(t@, a).to_multiset() == author_times(s.take(i as int), a).to_multiset(),
        decreases s.len() - i,
    {
        let x = copy_commit(&commits[i]);
        let mut p: usize = 0;
        while p < t.len() && t[p].seconds <= x.seconds
            invariant
                p <= t.len(),
                forall|q: int| 0 <= q < p ==> #[trigger] t@[q].seconds <= x.seconds,
            decreases t.len() - p,
        {
            p += 1;
        }
        let ghost before = t@;
        let ghost next = s.take(i + 1);
        assert(next.drop_last() =~= s.take(i as int));
        assert(next.last() == x);
        proof {
            before.insert_ensures(p as int, x);
            assert forall|a: Seq<char>| #[trigger] author_times(before.insert(p as int, x), a).to_multiset()
                == author_times(next, a).to_multiset() by {
                lemma_author_times_insert(before, p as int, x, a);
                assert(author_times(before, a).to_multiset() == author_times(s.take(i as int), a).to_multiset());
                if author_key(x) == a {
                    assert(author_times(next, a) == author_times(s.take(i as int), a).push(x.seconds));
                    vstd::seq_lib::to_multiset_build(author_times(s.take(i as int), a), x.seconds);
                } else {
                    assert(author_times(next, a) == author_times(s.take(i as int), a));
                }
            }
        }
        t.insert(p, x);
        assert forall|i1: int, j1: int| 0 <= i1 < j1 < t@.len() implies #[trigger] t@[i1].seconds <= #[trigger] t@[j1].seconds by {
            if j1 < p {
            } else if j1 == p {
            } else if i1 < p {
                assert(t@[j1] == before[j1 - 1]);
                assert(before[p as int].seconds > x.seconds);
                if j1 - 1 > p {
                    assert(before[p as int].seconds <= before[j1 - 1].seconds);
                }
            } else if i1 == p {
                assert(t@[j1] == before[j1 - 1]);
                assert(before[p as int].seconds > x.seconds);
                if j1 - 1 > p {
                    assert(before[p as int].seconds <= before[j1 - 1].seconds);
                }
            } else {
                assert(t@[j1] == before[j1 - 1]);
                assert(t@[i1] == before[i1 - 1]);
            }
        }
        i += 1;
    }
    assert(s.take(s.len() as int) =~= s);
    t
}

/// A time ordering of a history whose times are all representable has only representable times.
proof fn lemma_ordering_in_range(s: Seq<CommitInfo>, t: Seq<CommitInfo>)
    requires
        is_time_ordering(s, t),
        all_times_in_range(s),
    ensures
        all_times_in_range(t),
{
    broadcast use vstd::seq_lib::group_to_multiset_ensures;
    assert forall|i: int| 0 <= i < t.len() implies timestamp_in_range(#[trigger] t[i].seconds as int) by {
        let a = author_key(t[i]);
        lemma_author_times_contains(t, i);
        assert(author_times(t, a).to_multiset().count(t[i].seconds) > 0);
        assert(author_times(s, a).to_multiset().count(t[i].seconds) > 0);
        assert(author_times(s, a).contains(t[i].seconds));
        let j = choose|j: int| 0 <= j < author_times(s, a).len() && author_times(s, a)[j] == t[i].seconds;
        lemma_author_times_elements(s, a);
        assert(is_commit_time(s, author_times(s, a)[j]));
        let k = choose|k: int| 0 <= k < s.len() && #[trigger] s[k].seconds == author_times(s, a)[j];
        assert(s[k].seconds == t[i].seconds);
    }
}

/// `v` lists, sorted by minutes worked and with no author twice, every author of `s`, each with
/// the minutes of their commit times taken oldest first: one session start for the first commit,
/// then for each next commit the minutes since the previous one when fewer than the idle limit,
/// or another session start.
pub open spec fn estimates_in_time_order(s: Seq<CommitInfo>, v: Seq<CommitTime>) -> bool {
    &&& forall|k: int| #![trigger v[k]] 0 <= k < v.len() ==> {
        &&& author_times(s, v[k].author@).len() > 0
        &&& v[k].time == chain_minutes(times_in_order(s, v[k].author@))
    }
    &&& forall|a: Seq<char>| #![trigger author_times(s, a)] author_times(s, a).len() > 0 ==> exists|k: int|
        0 <= k < v.len() && #[trigger] v[k].author@ == a
    &&& distinct_authors(v)
    &&& sorted_by_time(v)
}

/// The estimate over a time ordering, when every time is representable, is that of each
/// author's times in order.
pub proof fn lemma_estimates_in_time_order(s: Seq<CommitInfo>, t: Seq<CommitInfo>, v: Seq<CommitTime>)
    requires
        is_time_ordering(s, t),
        all_times_in_range(s),
    ensures
        estimate_sessions(t) is Ok,
        estimates_match(estimate_sessions(t)->Ok_0, v) ==> estimates_in_time_order(s, v),
{
    broadcast use vstd::seq_lib::group_to_multiset_ensures;
    lemma_ordering_in_range(s, t);
    lemma_estimate_per_author(t, Seq::<char>::empty());
    let m = estimate_sessions(t)->Ok_0;
    if estimates_match(m, v) {
        assert forall|k: int| #![trigger v[k]] 0 <= k < v.len() implies {
            &&& author_times(s, v[k].author@).len() > 0
            &&& v[k].time == chain_minutes(times_in_order(s, v[k].author@))
        } by {
            let a = v[k].author@;
            lemma_estimate_per_author(t, a);
            lemma_author_times_of_ordering(s, t, a);
            assert(author_times(t, a).to_multiset().len() == author_times(s, a).to_multiset().len());
        }
        assert forall|a: Seq<char>| #![trigger author_times(s, a)] author_times(s, a).len() > 0 implies exists|k: int|
            0 <= k < v.len() && #[trigger] v[k].author@ == a by {
            lemma_estimate_per_author(t, a);
            assert(author_times(t, a).to_multiset().len() == author_times(s, a).to_multiset().len());
            assert(m.contains_key(a));
        }
    }
}

/// Every entry of `v1` has an entry of `v2` with the same author and the same time.
pub open spec fn times_included(v1: Seq<CommitTime>, v2: Seq<CommitTime>) -> bool {
    forall|k1: int| 0 <= k1 < v1.len() ==> #[trigger] has_same_time(v2, v1[k1])
}

/// Some entry of `v` belongs to the author of `x` and has the same time.
pub open spec fn has_same_time(v: Seq<CommitTime>, x: CommitTime) -> bool {
    exists|k: int| 0 <= k < v.len() && #[trigger] same_author_time(v[k], x)
}

/// The two entries belong to the same author and have the same time.
pub open spec fn same_author_time(x: CommitTime, y: CommitTime) -> bool {
    x.author@ == y.author@ && x.time == y.time
}

/// The estimate does not depend on the order in which the history is walked: two walks in
/// which every author has the same commit times (such as a walk and its reverse) list the same
/// (author, minutes) pairs.
pub proof fn lemma_estimates_ignore_walk_order(
    s1: Seq<CommitInfo>,
    s2: Seq<CommitInfo>,
    v1: Seq<CommitTime>,
    v2: Seq<CommitTime>,
)
    requires
        forall|a: Seq<char>| #[trigger] author_times(s1, a).to_multiset() == author_times(s2, a).to_multiset(),
        estimates_in_time_order(s1, v1),
        estimates_in_time_order(s2, v2),
    ensures
        times_included(v1, v2),
        times_included(v2, v1),
{
    broadcast use vstd::seq_lib::group_to_multiset_ensures;
    assert(times_included(v1, v2)) by {
        assert forall|k1: int| 0 <= k1 < v1.len() implies #[trigger] has_same_time(v2, v1[k1]) by {
            let a = v1[k1].author@;
            assert(author_times(s1, a).to_multiset() == author_times(s2, a).to_multiset());
            lemma_same_times_same_order(s1, s2, a);
            assert(author_times(s1, a).to_multiset().len() == author_times(s2, a).to_multiset().len());
            let k2 = choose|k2: int| 0 <= k2 < v2.len() && #[trigger] v2[k2].author@ == a;
            assert(v2[k2].time == chain_minutes(times_in_order(s2, v2[k2].author@)));
            assert(same_author_time(v2[k2], v1[k1]));
        }
    }
    assert(times_included(v2, v1)) by {
        assert forall|k2: int| 0 <= k2 < v2.len() implies #[trigger] has_same_time(v1, v2[k2]) by {
            let a = v2[k2].author@;
            assert(author_times(s1, a).to_multiset() == author_times(s2, a).to_multiset());
            lemma_same_times_same_order(s1, s2, a);
            assert(author_times(s1, a).to_multiset().len() == author_times(s2, a).to_multiset().len());
            let k1 = choose|k1: int| 0 <= k1 < v1.len() && #[trigger] v1[k1].author@ == a;
            assert(v1[k1].time == chain_minutes(times_in_order(s1, v1[k1].author@)));
            assert(same_author_time(v1[k1], v2[k2]));
        }
    }
}

/// Walking the history backwards gives each author the same commit times.
pub proof fn lemma_reversed_walk_same_times(s: Seq<CommitInfo>, a: Seq<char>)
    ensures
        author_times(s.reverse(), a).to_multiset() == author_times(s, a).to_multiset(),
{
    lemma_author_times_reverse(s, a);
    author_times(s, a).lemma_reverse_to_multiset();
}


} // verus!
