use vstd::prelude::*;
use crate::git::distinct_authors;
use crate::{
    is_first_match, last_index_of_author, lemma_last_index_of_author, lemma_matched_indices, matched_indices,
    zipped_by_author, CommitMetadata,
};

verus! {

/// `first` holds an element by author `a`.
pub open spec fn has_author<U: CommitMetadata>(first: Seq<U>, a: Seq<char>) -> bool {
    last_index_of_author(first, a) >= 0
}

/// Two lists with the same elements hold the same authors.
proof fn lemma_same_elements_same_authors<U: CommitMetadata>(s1: Seq<U>, p: Seq<U>, a: Seq<char>)
    requires
        p.to_multiset() == s1.to_multiset(),
    ensures
        has_author(p, a) == has_author(s1, a),
{
    broadcast use vstd::seq_lib::group_to_multiset_ensures;
    lemma_last_index_of_author(s1, a);
    lemma_last_index_of_author(p, a);
    if has_author(s1, a) {
        let x = s1[last_index_of_author(s1, a)];
        assert(s1.contains(x));
        assert(p.to_multiset().count(x) > 0);
        assert(p.contains(x));
        let j = choose|j: int| 0 <= j < p.len() && p[j] == x;
        assert(p[j].author_name() == a);
    }
    if has_author(p, a) {
        let x = p[last_index_of_author(p, a)];
        assert(p.contains(x));
        assert(s1.to_multiset().count(x) > 0);
        assert(s1.contains(x));
        let j = choose|j: int| 0 <= j < s1.len() && s1[j] == x;
        assert(s1[j].author_name() == a);
    }
}

/// Which elements of `second` are paired depends only on which authors `first` holds.
proof fn lemma_matched_same_authors<U: CommitMetadata, V: CommitMetadata>(
    s1: Seq<U>,
    p: Seq<U>,
    second: Seq<V>,
    n: nat,
)
    requires
        forall|a: Seq<char>| #[trigger] has_author(p, a) == has_author(s1, a),
    ensures
        matched_indices(p, second, n) == matched_indices(s1, second, n),
    decreases n,
{
    if n > 0 {
        lemma_matched_same_authors(s1, p, second, (n - 1) as nat);
        assert(has_author(p, second[n - 1].author_name()) == has_author(s1, second[n - 1].author_name()));
        assert(is_first_match(p, second, n - 1) == is_first_match(s1, second, n - 1));
    }
}

/// The order of the first list does not show in the zipped result: zipping any reordering of a
/// first list whose authors are distinct gives the same entries in the same order.
pub proof fn lemma_zip_ignores_first_order<U: CommitMetadata, V: CommitMetadata>(
    s1: Seq<U>,
    p: Seq<U>,
    second: Seq<V>,
    r1: Seq<(String, (U, V))>,
    r2: Seq<(String, (U, V))>,
)
    requires
        distinct_authors(s1),
        p.to_multiset() == s1.to_multiset(),
        zipped_by_author(s1, second, r1),
        zipped_by_author(p, second, r2),
    ensures
        r1.len() == r2.len(),
        forall|k: int| 0 <= k < r1.len() ==> #[trigger] r1[k].0@ == r2[k].0@ && r1[k].1 == r2[k].1,
{
    broadcast use vstd::seq_lib::group_to_multiset_ensures;
    assert forall|a: Seq<char>| #[trigger] has_author(p, a) == has_author(s1, a) by {
        lemma_same_elements_same_authors(s1, p, a);
    }
    lemma_matched_same_authors(s1, p, second, second.len());
    lemma_matched_indices(s1, second, second.len());
    let idx = matched_indices(s1, second, second.len());
    assert forall|k: int| 0 <= k < r1.len() implies #[trigger] r1[k].0@ == r2[k].0@ && r1[k].1 == r2[k].1 by {
        let j = idx[k];
        let a = second[j].author_name();
        assert(is_first_match(s1, second, j));
        lemma_same_elements_same_authors(s1, p, a);
        lemma_last_index_of_author(s1, a);
        lemma_last_index_of_author(p, a);
        let x = p[last_index_of_author(p, a)];
        assert(p.contains(x));
        assert(s1.to_multiset().count(x) > 0);
        assert(s1.contains(x));
        let i = choose|i: int| 0 <= i < s1.len() && s1[i] == x;
        let li = last_index_of_author(s1, a);
        if i != li {
            if i < li {
                assert(s1[i].author_name() != s1[li].author_name());
            } else {
                assert(s1[li].author_name() != s1[i].author_name());
            }
        }
    }
}

/// The authors that both lists hold.
pub open spec fn common_authors<U: CommitMetadata, V: CommitMetadata>(first: Seq<U>, second: Seq<V>) -> Set<Seq<char>> {
    Set::new(|a: Seq<char>| has_author(first, a) && has_author(second, a))
}

/// When the authors of `second` are distinct, as many of its elements are paired as the two
/// lists have authors in common.
proof fn lemma_matched_count<U: CommitMetadata, V: CommitMetadata>(first: Seq<U>, second: Seq<V>)
    requires
        distinct_authors(second),
    ensures
        matched_indices(first, second, second.len()).len() == common_authors(first, second).len(),
{
    lemma_matched_indices(first, second, second.len());
    let idx = matched_indices(first, second, second.len());
    let names = Seq::new(idx.len(), |k: int| second[idx[k]].author_name());
    assert(names.no_duplicates()) by {
        assert forall|k1: int, k2: int| 0 <= k1 < names.len() && 0 <= k2 < names.len() && k1 != k2 implies names[k1] != names[k2] by {
            if k1 < k2 {
                assert(idx[k1] < idx[k2]);
                assert(is_first_match(first, second, idx[k2]));
                assert(second[idx[k1]].author_name() != second[idx[k2]].author_name());
            } else {
                assert(idx[k2] < idx[k1]);
                assert(is_first_match(first, second, idx[k1]));
                assert(second[idx[k2]].author_name() != second[idx[k1]].author_name());
            }
        }
    }
    names.unique_seq_to_set();
    assert(names.to_set() =~= common_authors(first, second)) by {
        assert forall|a: Seq<char>| names.to_set().contains(a) implies common_authors(first, second).contains(a) by {
            let k = choose|k: int| 0 <= k < names.len() && names[k] == a;
            let j = idx[k];
            assert(is_first_match(first, second, j));
            lemma_last_index_of_author(second, a);
            if !has_author(second, a) {
                assert(second[j].author_name() != a);
            }
        }
        assert forall|a: Seq<char>| common_authors(first, second).contains(a) implies names.to_set().contains(a) by {
            lemma_last_index_of_author(second, a);
            let j = last_index_of_author(second, a);
            assert forall|k: int| 0 <= k < j implies #[trigger] second[k].author_name() != second[j].author_name() by {
                assert(second[k].author_name() != second[j].author_name());
            }
            assert(is_first_match(first, second, j));
            let k = choose|k: int| 0 <= k < idx.len() && #[trigger] idx[k] == j;
            assert(names[k] == a);
            assert(names.contains(a));
        }
    }
}

/// The entry `x` of one zip and the entry `y` of the zip with the lists swapped hold the same
/// author and the same two elements, swapped.
pub open spec fn swapped_entry<U, V>(x: (String, (U, V)), y: (String, (V, U))) -> bool {
    x.0@ == y.0@ && x.1.0 == y.1.1 && x.1.1 == y.1.0
}

/// Some entry of `r` is `x` with its elements swapped.
pub open spec fn has_swapped_entry<U, V>(r: Seq<(String, (V, U))>, x: (String, (U, V))) -> bool {
    exists|k: int| 0 <= k < r.len() && #[trigger] swapped_entry(x, r[k])
}

/// Each entry of a zip appears, swapped, in the zip with the lists swapped.
proof fn lemma_zip_swap_entries<U: CommitMetadata, V: CommitMetadata>(
    s1: Seq<U>,
    s2: Seq<V>,
    r1: Seq<(String, (U, V))>,
    r2: Seq<(String, (V, U))>,
)
    requires
        distinct_authors(s1),
        distinct_authors(s2),
        zipped_by_author(s1, s2, r1),
        zipped_by_author(s2, s1, r2),
    ensures
        forall|k1: int| 0 <= k1 < r1.len() ==> #[trigger] has_swapped_entry(r2, r1[k1]),
{
    lemma_matched_indices(s1, s2, s2.len());
    lemma_matched_indices(s2, s1, s1.len());
    let idx12 = matched_indices(s1, s2, s2.len());
    let idx21 = matched_indices(s2, s1, s1.len());
    assert forall|k1: int| 0 <= k1 < r1.len() implies #[trigger] has_swapped_entry(r2, r1[k1]) by {
        let j = idx12[k1];
        let a = s2[j].author_name();
        assert(is_first_match(s1, s2, j));
        lemma_last_index_of_author(s1, a);
        lemma_last_index_of_author(s2, a);
        let i = last_index_of_author(s1, a);
        let lj = last_index_of_author(s2, a);
        if lj != j {
            if lj < j {
                assert(s2[lj].author_name() != s2[j].author_name());
            } else {
                assert(s2[j].author_name() != s2[lj].author_name());
            }
        }
        assert forall|k: int| 0 <= k < i implies #[trigger] s1[k].author_name() != s1[i].author_name() by {
            assert(s1[k].author_name() != s1[i].author_name());
        }
        assert(is_first_match(s2, s1, i));
        let k2 = choose|k2: int| 0 <= k2 < idx21.len() && #[trigger] idx21[k2] == i;
        assert(swapped_entry(r1[k1], r2[k2]));
    }
}

/// Swapping the two lists of a zip whose authors are distinct in each list gives as many
/// entries, and the same entries with their elements swapped.
pub proof fn lemma_zip_swap<U: CommitMetadata, V: CommitMetadata>(
    s1: Seq<U>,
    s2: Seq<V>,
    r1: Seq<(String, (U, V))>,
    r2: Seq<(String, (V, U))>,
)
    requires
        distinct_authors(s1),
        distinct_authors(s2),
        zipped_by_author(s1, s2, r1),
        zipped_by_author(s2, s1, r2),
    ensures
        r1.len() == r2.len(),
        forall|k1: int| 0 <= k1 < r1.len() ==> #[trigger] has_swapped_entry(r2, r1[k1]),
        forall|k2: int| 0 <= k2 < r2.len() ==> #[trigger] has_swapped_entry(r1, r2[k2]),
{
    lemma_matched_count(s1, s2);
    lemma_matched_count(s2, s1);
    assert(common_authors(s1, s2) =~= common_authors(s2, s1));
    lemma_zip_swap_entries(s1, s2, r1, r2);
    lemma_zip_swap_entries(s2, s1, r2, r1);
}

} // verus!
