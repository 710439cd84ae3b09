use vstd::prelude::*;
use git2::Error as GitFailure;
use anyhow::Error as AnyFailure;
use vstd::string::StringSliceAdditionalSpecFns;

pub mod constants;
pub mod datetime;
pub mod git;
pub mod pairing;
pub mod properties;
pub mod structs;
pub mod timeline;

verus! {

#[verifier::external_type_specification]
#[verifier::external_body]
pub struct ExGitError(GitFailure);

#[verifier::external_type_specification]
#[verifier::external_body]
pub struct ExAnyhowError(AnyFailure);

/// Library error type
pub enum Error {
    /// no commits
    NoCommits,
    /// can't fetch previous commit time
    PreviousCommitTimeError,
    /// can't fetch commit time
    CommitTimeError,
    /// an error reported by git
    GitError(GitFailure),
    /// any other error, with its context
    Other(AnyFailure),
}

impl From<GitFailure> for Error {
    fn from(e: GitFailure) -> (res: Self) {
        Error::GitError(e)
    }
}

impl vstd::std_specs::convert::FromSpecImpl<GitFailure> for Error {
    open spec fn obeys_from_spec() -> bool {
        true
    }

    open spec fn from_spec(e: GitFailure) -> Self {
        Error::GitError(e)
    }
}

impl From<AnyFailure> for Error {
    fn from(e: AnyFailure) -> (res: Self) {
        Error::Other(e)
    }
}

impl vstd::std_specs::convert::FromSpecImpl<AnyFailure> for Error {
    open spec fn obeys_from_spec() -> bool {
        true
    }

    open spec fn from_spec(e: AnyFailure) -> Self {
        Error::Other(e)
    }
}

/// Shared commit metadata trait for zipping and printing metadata information
pub trait CommitMetadata {
    /// The author's name that `author` hands out.
    spec fn author_name(&self) -> Seq<char>;

    fn author(&self) -> (res: String)
        ensures
            res@ == self.author_name(),
    ;
}

/// The index of the last element of `s` whose author is `a`, or -1 when there is none.
pub open spec fn last_index_of_author<U: CommitMetadata>(s: Seq<U>, a: Seq<char>) -> int
    decreases s.len(),
{
    if s.len() == 0 {
        -1
    } else if s.last().author_name() == a {
        s.len() - 1
    } else {
        last_index_of_author(s.drop_last(), a)
    }
}

/// `second[j]` is the first element of `second` by its author, and `first` holds an element by
/// that author too: such an element is paired by `zip_by_author`.
pub open spec fn is_first_match<U: CommitMetadata, V: CommitMetadata>(
    first: Seq<U>,
    second: Seq<V>,
    j: int,
) -> bool {
    &&& last_index_of_author(first, second[j].author_name()) >= 0
    &&& forall|k: int| 0 <= k < j ==> #[trigger] second[k].author_name() != second[j].author_name()
}

/// The indices, in ascending order, of the elements among the first `n` of `second` that
/// `zip_by_author` pairs.
pub open spec fn matched_indices<U: CommitMetadata, V: CommitMetadata>(
    first: Seq<U>,
    second: Seq<V>,
    n: nat,
) -> Seq<int>
    decreases n,
{
    if n == 0 {
        seq![]
    } else {
        let prev = matched_indices(first, second, (n - 1) as nat);
        if is_first_match(first, second, n - 1) {
            prev.push(n - 1)
        } else {
            prev
        }
    }
}

/// `last_index_of_author` finds the last element by the author, or reports that none exists.
pub proof fn lemma_last_index_of_author<U: CommitMetadata>(s: Seq<U>, a: Seq<char>)
    ensures
        -1 <= last_index_of_author(s, a) < s.len(),
        last_index_of_author(s, a) >= 0 ==> s[last_index_of_author(s, a)].author_name() == a,
        forall|i: int|
            last_index_of_author(s, a) < i < s.len() ==> #[trigger] s[i].author_name() != a,
    decreases s.len(),
{
    if s.len() > 0 && s.last().author_name() != a {
        lemma_last_index_of_author(s.drop_last(), a);
        assert forall|i: int| last_index_of_author(s, a) < i < s.len() implies #[trigger] s[i].author_name() != a by {
            if i < s.len() - 1 {
                assert(s[i] == s.drop_last()[i]);
            }
        }
    }
}

/// The indices that `zip_by_author` pairs are ascending positions of `second`, each the first
/// one by its author.
pub proof fn lemma_matched_indices<U: CommitMetadata, V: CommitMetadata>(
    first: Seq<U>,
    second: Seq<V>,
    n: nat,
)
    requires
        n <= second.len(),
    ensures
        matched_indices(first, second, n).len() <= n,
        forall|k: int|
            0 <= k < matched_indices(first, second, n).len() ==> {
                let j = #[trigger] matched_indices(first, second, n)[k];
                &&& 0 <= j < n
                &&& is_first_match(first, second, j)
            },
        forall|k1: int, k2: int|
            0 <= k1 < k2 < matched_indices(first, second, n).len() ==> matched_indices(
                first,
                second,
                n,
            )[k1] < matched_indices(first, second, n)[k2],
        forall|j: int|
            0 <= j < n && is_first_match(first, second, j) ==> exists|k: int|
                0 <= k < matched_indices(first, second, n).len() && #[trigger] matched_indices(first, second, n)[k] == j,
    decreases n,
{
    if n > 0 {
        lemma_matched_indices(first, second, (n - 1) as nat);
        let prev = matched_indices(first, second, (n - 1) as nat);
        let cur = matched_indices(first, second, n);
        assert forall|j: int|
            0 <= j < n && is_first_match(first, second, j) implies exists|k: int|
                0 <= k < cur.len() && #[trigger] cur[k] == j by {
            if j == n - 1 {
                assert(cur[cur.len() - 1] == j);
            } else {
                let k = choose|k: int| 0 <= k < prev.len() && #[trigger] prev[k] == j;
                assert(cur[k] == prev[k]);
            }
        }
    }
}

/// `res` pairs each element of `second` that `is_first_match` picks, in order, with the last
/// element of `first` by the same author, under that author's name; no name comes twice.
pub open spec fn zipped_by_author<U: CommitMetadata, V: CommitMetadata>(
    first: Seq<U>,
    second: Seq<V>,
    res: Seq<(String, (U, V))>,
) -> bool {
    &&& res.len() == matched_indices(first, second, second.len()).len()
    &&& forall|k: int|
        0 <= k < res.len() ==> {
            let j = #[trigger] matched_indices(first, second, second.len())[k];
            let a = second[j].author_name();
            &&& res[k].0@ == a
            &&& res[k].1.1 == second[j]
            &&& res[k].1.0 == first[last_index_of_author(first, a)]
            &&& res[k].1.0.author_name() == a
        }
    &&& res.len() <= second.len()
    &&& forall|k1: int, k2: int| 0 <= k1 < k2 < res.len() ==> #[trigger] res[k1].0@ != #[trigger] res[k2].0@
}

/// Finds where `name` stands in `names`.
pub(crate) fn position_of_name(names: &Vec<String>, name: &String) -> (res: Option<usize>)
    ensures
        res matches Some(i) ==> i < names.len() && names@[i as int]@ == name@,
        res is None ==> forall|i: int| 0 <= i < names.len() ==> names@[i]@ != name@,
{
    let mut i: usize = 0;
    while i < names.len()
        invariant
            i <= names.len(),
            forall|k: int| 0 <= k < i ==> names@[k]@ != name@,
        decreases names.len() - i,
    {
        if names[i] == *name {
            return Some(i);
        }
        i += 1;
    }
    None
}

/// Zip two arrays of CommitMetadata objects into tuples for easy access
///
/// Each element of `vec2` whose author has an element in `vec1`, and which is the first of
/// `vec2` by that author, is paired with the last element of `vec1` by that author, in the
/// order of `vec2`.
///
/// * `vec1` - Vec of objects that implement the CommitMetadata trait
/// * `vec2` - Vec of objects that implement the CommitMetadata trait
pub fn zip_by_author<U: CommitMetadata, V: CommitMetadata>(vec1: Vec<U>, vec2: Vec<V>) -> (res: Vec<(String, (U, V))>)
    ensures
        zipped_by_author(vec1@, vec2@, res@),
{
    let ghost s1 = vec1@;
    let ghost s2 = vec2@;
    proof {
        lemma_matched_indices(s1, s2, s2.len());
    }

    // Keep, for each author of `vec1`, the last element by that author.
    let mut rest = vec1;
    let mut pool: Vec<U> = Vec::new();
    let mut pool_names: Vec<String> = Vec::new();
    assert forall|a: Seq<char>| last_index_of_author(s1, a) < s1.len() by {
        lemma_last_index_of_author(s1, a);
    }
    assert(rest@ == s1.take(rest.len() as int));
    while rest.len() > 0
        invariant
            rest@ == s1.take(rest.len() as int),
            rest.len() <= s1.len(),
            pool.len() == pool_names.len(),
            forall|p: int| 0 <= p < pool.len() ==> #[trigger] pool_names@[p]@ == pool@[p].author_name(),
            forall|p: int|
                0 <= p < pool.len() ==> {
                    let a = #[trigger] pool@[p].author_name();
                    &&& last_index_of_author(s1, a) >= rest.len()
                    &&& pool@[p] == s1[last_index_of_author(s1, a)]
                },
            forall|p: int, q: int|
                0 <= p < q < pool.len() ==> #[trigger] pool_names@[p]@ != #[trigger] pool_names@[q]@,
            forall|a: Seq<char>|
                last_index_of_author(s1, a) >= rest.len() ==> exists|p: int|
                    0 <= p < pool.len() && #[trigger] pool_names@[p]@ == a,
        decreases rest.len(),
    {
        let ghost n = rest.len() as int;
        let x = rest.pop().unwrap();
        assert(x == s1[n - 1]);
        assert(rest@ == s1.take(n - 1));
        let name = x.author();
        proof {
            lemma_last_index_of_author(s1, name@);
        }
        match position_of_name(&pool_names, &name) {
            Some(i) => {
                assert forall|a: Seq<char>|
                    last_index_of_author(s1, a) >= n - 1 implies exists|p: int|
                        0 <= p < pool.len() && #[trigger] pool_names@[p]@ == a by {
                    if a != name@ {
                        lemma_last_index_of_author(s1, a);
                        if last_index_of_author(s1, a) == n - 1 {
                            assert(false);
                        }
                    } else {
                        assert(pool_names@[i as int]@ == a);
                    }
                }
            },
            None => {
                assert(last_index_of_author(s1, name@) == n - 1);
                let ghost old_names = pool_names@;
                pool.push(x);
                pool_names.push(name);
                assert(pool_names@[pool_names.len() - 1]@ == name@);
                assert forall|a: Seq<char>|
                    last_index_of_author(s1, a) >= n - 1 implies exists|p: int|
                        0 <= p < pool.len() && #[trigger] pool_names@[p]@ == a by {
                    if a != name@ {
                        lemma_last_index_of_author(s1, a);
                        if last_index_of_author(s1, a) == n - 1 {
                            assert(false);
                        }
                        let p = choose|p: int| 0 <= p < old_names.len() && #[trigger] old_names[p]@ == a;
                        assert(pool_names@[p]@ == a);
                    } else {
                        assert(pool_names@[pool.len() - 1]@ == a);
                    }
                }
            },
        }
    }

    // Pair each element of `vec2` with the kept element by its author, at most once per author.
    let mut rest2 = vec2;
    let mut j: usize = 0;
    let mut res: Vec<(String, (U, V))> = Vec::new();
    let n2 = rest2.len();
    assert(s2.len() == n2);
    assert(rest2@ == s2.skip(0));
    while rest2.len() > 0
        invariant
            s2.len() <= usize::MAX,
            j + rest2.len() == s2.len(),
            rest2@ == s2.skip(j as int),
            pool.len() == pool_names.len(),
            forall|p: int| 0 <= p < pool.len() ==> #[trigger] pool_names@[p]@ == pool@[p].author_name(),
            forall|p: int|
                0 <= p < pool.len() ==> {
                    let a = #[trigger] pool@[p].author_name();
                    &&& last_index_of_author(s1, a) >= 0
                    &&& pool@[p] == s1[last_index_of_author(s1, a)]
                },
            forall|p: int, q: int|
                0 <= p < q < pool.len() ==> #[trigger] pool_names@[p]@ != #[trigger] pool_names@[q]@,
            forall|p: int, k: int|
                0 <= p < pool.len() && 0 <= k < j ==> #[trigger] s2[k].author_name() != #[trigger] pool_names@[p]@,
            forall|a: Seq<char>|
                last_index_of_author(s1, a) >= 0 && (forall|k: int| 0 <= k < j ==> #[trigger] s2[k].author_name() != a)
                    ==> exists|p: int| 0 <= p < pool.len() && #[trigger] pool_names@[p]@ == a,
            res.len() == matched_indices(s1, s2, j as nat).len(),
            forall|k: int|
                0 <= k < res.len() ==> {
                    let jj = #[trigger] matched_indices(s1, s2, j as nat)[k];
                    let a = s2[jj].author_name();
                    &&& res@[k].0@ == a
                    &&& res@[k].1.1 == s2[jj]
                    &&& res@[k].1.0 == s1[last_index_of_author(s1, a)]
                    &&& res@[k].1.0.author_name() == a
                },
        decreases rest2.len(),
    {
        let val2 = rest2.remove(0);
        assert(val2 == s2[j as int]);
        assert(rest2@ == s2.skip(j + 1));
        let name = val2.author();
        let ghost prev_pool_names = pool_names@;
        match position_of_name(&pool_names, &name) {
            Some(idx) => {
                assert(is_first_match(s1, s2, j as int));
                let val1 = pool.remove(idx);
                pool_names.remove(idx);
                proof {
                    lemma_last_index_of_author(s1, name@);
                }
                let key = val1.author();
                res.push((key, (val1, val2)));
                assert forall|p: int, k: int|
                    0 <= p < pool.len() && 0 <= k < j + 1 implies #[trigger] s2[k].author_name() != #[trigger] pool_names@[p]@ by {
                    if p < idx {
                        assert(pool_names@[p] == prev_pool_names[p]);
                    } else {
                        assert(pool_names@[p] == prev_pool_names[p + 1]);
                    }
                }
                assert forall|a: Seq<char>|
                    last_index_of_author(s1, a) >= 0 && (forall|k: int| 0 <= k < j + 1 ==> #[trigger] s2[k].author_name() != a)
                    implies exists|p: int| 0 <= p < pool.len() && #[trigger] pool_names@[p]@ == a by {
                    assert(s2[j as int].author_name() != a);
                    let p = choose|p: int| 0 <= p < prev_pool_names.len() && #[trigger] prev_pool_names[p]@ == a;
                    if p < idx {
                        assert(pool_names@[p]@ == a);
                    } else {
                        assert(p != idx);
                        assert(pool_names@[p - 1]@ == a);
                    }
                }
            },
            None => {
                assert(!is_first_match(s1, s2, j as int)) by {
                    if is_first_match(s1, s2, j as int) {
                        let p = choose|p: int| 0 <= p < pool.len() && #[trigger] pool_names@[p]@ == name@;
                        assert(pool_names@[p]@ == name@);
                    }
                }
            },
        }
        j += 1;
    }
    assert(j == s2.len());
    assert forall|k1: int, k2: int| 0 <= k1 < k2 < res.len() implies #[trigger] res@[k1].0@ != #[trigger] res@[k2].0@ by {
        let j1 = matched_indices(s1, s2, s2.len())[k1];
        let j2 = matched_indices(s1, s2, s2.len())[k2];
        assert(j1 < j2);
        assert(is_first_match(s1, s2, j2));
        assert(s2[j1].author_name() != s2[j2].author_name());
    }
    res
}

/// The border drawn above and below an author's name: `=` repeated four more times than the
/// name has bytes.
pub open spec fn border_of(byte_len: nat) -> Seq<char> {
    Seq::new(byte_len + 4, |_i: int| '=')
}

/// Builds the border line printed around an author's name in the statistics
///
/// * `author` - the author's name
pub fn author_border(author: &str) -> (res: String)
    requires
        author.spec_bytes().len() + 4 <= usize::MAX,
    ensures
        res@ == border_of(author.spec_bytes().len()),
{
    let n = author.len() + 4;
    let mut res = String::new();
    let mut i: usize = 0;
    proof {
        reveal_strlit("=");
    }
    while i < n
        invariant
            i <= n,
            n == author.spec_bytes().len() + 4,
            res@ == Seq::new(i as nat, |_i: int| '='),
            "="@ == seq!['='],
        decreases n - i,
    {
        res.append("=");
        i += 1;
        assert(res@ =~= Seq::new(i as nat, |_i: int| '='));
    }
    res
}

/// Builds the line that shows an author's name between the borders: `| name |`
///
/// * `author` - the author's name
pub fn author_heading(author: &str) -> (res: String)
    ensures
        res@ == seq!['|', ' '] + author@ + seq![' ', '|'],
{
    proof {
        reveal_strlit("| ");
        reveal_strlit(" |");
    }
    let mut res = String::from_str("| ");
    res.append(author);
    res.append(" |");
    assert(res@ =~= seq!['|', ' '] + author@ + seq![' ', '|']);
    res
}

} // verus!
