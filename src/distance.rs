//! Edit distance between names, and the choice of the closest candidate.

use vstd::prelude::*;

verus! {

pub open spec fn min3(a: nat, b: nat, c: nat) -> nat {
    if a <= b && a <= c {
        a
    } else if b <= c {
        b
    } else {
        c
    }
}

/// Levenshtein distance: the least number of single-character insertions,
/// deletions and substitutions that turn `a` into `b`.
pub open spec fn edit_distance(a: Seq<char>, b: Seq<char>) -> nat
    decreases a.len() + b.len(),
{
    if a.len() == 0 {
        b.len()
    } else if b.len() == 0 {
        a.len()
    } else {
        let substitution: nat = if a.last() == b.last() {
            0
        } else {
            1
        };
        min3(
            edit_distance(a.drop_last(), b) + 1,
            edit_distance(a, b.drop_last()) + 1,
            edit_distance(a.drop_last(), b.drop_last()) + substitution,
        )
    }
}

/// Relies on strsim::levenshtein: the Levenshtein distance of the two
/// strings, counted over their chars.
#[verifier::external_body]
pub(crate) fn levenshtein(a: &str, b: &str) -> (r: usize)
    ensures
        r as nat == edit_distance(a@, b@),
{
    strsim::levenshtein(a, b)
}

/// `i` is the first position that holds the smallest value.
pub open spec fn is_first_min(values: Seq<usize>, i: int) -> bool {
    &&& 0 <= i < values.len()
    &&& forall|j: int| 0 <= j < values.len() ==> values[i] <= #[trigger] values[j]
    &&& forall|j: int| 0 <= j < i ==> values[i] < #[trigger] values[j]
}

/// `i` is the first candidate at the smallest edit distance from `query`.
pub open spec fn is_closest(query: Seq<char>, names: Seq<Seq<char>>, i: int) -> bool {
    &&& 0 <= i < names.len()
    &&& forall|j: int|
        0 <= j < names.len() ==> edit_distance(query, names[i]) <= #[trigger] edit_distance(
            query,
            names[j],
        )
    &&& forall|j: int|
        0 <= j < i ==> edit_distance(query, names[i]) < #[trigger] edit_distance(query, names[j])
}

/// The position of the first smallest value; `None` only for an empty input.
pub fn first_min_index(values: &Vec<usize>) -> (r: Option<usize>)
    ensures
        r is None <==> values@.len() == 0,
        r matches Some(i) ==> is_first_min(values@, i as int),
{
    if values.len() == 0 {
        return None;
    }
    let mut best: usize = 0;
    let mut k: usize = 1;
    while k < values.len()
        invariant
            0 <= best < k <= values@.len(),
            forall|j: int| 0 <= j < k ==> values@[best as int] <= #[trigger] values@[j],
            forall|j: int| 0 <= j < best ==> values@[best as int] < #[trigger] values@[j],
        decreases values@.len() - k,
    {
        if values[k] < values[best] {
            best = k;
        }
        k = k + 1;
    }
    Some(best)
}

/// Two positions that both are the first closest candidate are the same one:
/// the choice depends on the query and the candidates alone.
pub proof fn lemma_closest_unique(query: Seq<char>, names: Seq<Seq<char>>, i: int, j: int)
    requires
        is_closest(query, names, i),
        is_closest(query, names, j),
    ensures
        i == j,
{
    if i < j {
        assert(edit_distance(query, names[j]) < edit_distance(query, names[i]));
    } else if j < i {
        assert(edit_distance(query, names[i]) < edit_distance(query, names[j]));
    }
}

/// Every non-empty list of candidates has a first closest one.
pub proof fn lemma_closest_exists(query: Seq<char>, names: Seq<Seq<char>>)
    requires
        names.len() > 0,
    ensures
        exists|i: int| is_closest(query, names, i),
    decreases names.len(),
{
    if names.len() == 1 {
        assert(is_closest(query, names, 0));
    } else {
        let prefix = names.drop_last();
        lemma_closest_exists(query, prefix);
        let i = choose|i: int| is_closest(query, prefix, i);
        let last = names.len() - 1;
        if edit_distance(query, names[last]) < edit_distance(query, names[i]) {
            assert(is_closest(query, names, last)) by {
                assert forall|j: int| 0 <= j < names.len() implies edit_distance(
                    query,
                    names[last],
                ) <= #[trigger] edit_distance(query, names[j]) by {
                    if j < last {
                        assert(names[j] == prefix[j]);
                    }
                }
                assert forall|j: int| 0 <= j < last implies edit_distance(
                    query,
                    names[last],
                ) < #[trigger] edit_distance(query, names[j]) by {
                    assert(names[j] == prefix[j]);
                }
            }
        } else {
            assert(is_closest(query, names, i)) by {
                assert forall|j: int| 0 <= j < names.len() implies edit_distance(
                    query,
                    names[i],
                ) <= #[trigger] edit_distance(query, names[j]) by {
                    if j < last {
                        assert(names[j] == prefix[j]);
                    }
                }
                assert forall|j: int| 0 <= j < i implies edit_distance(
                    query,
                    names[i],
                ) < #[trigger] edit_distance(query, names[j]) by {
                    assert(names[j] == prefix[j]);
                }
            }
        }
    }
}

/// `query` is `name` with one character substituted, inserted or deleted.
pub open spec fn one_edit_apart(query: Seq<char>, name: Seq<char>) -> bool {
    exists|j: int, x: char|
        {
            ||| (0 <= j < name.len() && query == name.update(j, x))
            ||| (0 <= j <= name.len() && query == name.insert(j, x))
            ||| (0 <= j < name.len() && query == name.remove(j))
        }
}

pub proof fn lemma_distance_to_self(a: Seq<char>)
    ensures
        edit_distance(a, a) == 0,
    decreases a.len(),
{
    if a.len() > 0 {
        lemma_distance_to_self(a.drop_last());
    }
}

pub proof fn lemma_substitution_distance(a: Seq<char>, j: int, x: char)
    requires
        0 <= j < a.len(),
    ensures
        edit_distance(a.update(j, x), a) <= 1,
    decreases a.len(),
{
    let q = a.update(j, x);
    if j == a.len() - 1 {
        assert(q.drop_last() =~= a.drop_last());
        lemma_distance_to_self(a.drop_last());
    } else {
        assert(q.drop_last() =~= a.drop_last().update(j, x));
        lemma_substitution_distance(a.drop_last(), j, x);
    }
}

pub proof fn lemma_insertion_distance(a: Seq<char>, j: int, x: char)
    requires
        0 <= j <= a.len(),
    ensures
        edit_distance(a.insert(j, x), a) <= 1,
    decreases a.len(),
{
    let q = a.insert(j, x);
    if a.len() > 0 {
        if j == a.len() {
            assert(q.drop_last() =~= a);
            lemma_distance_to_self(a);
        } else {
            assert(q.drop_last() =~= a.drop_last().insert(j, x));
            lemma_insertion_distance(a.drop_last(), j, x);
        }
    }
}

pub proof fn lemma_deletion_distance(a: Seq<char>, j: int)
    requires
        0 <= j < a.len(),
    ensures
        edit_distance(a.remove(j), a) <= 1,
    decreases a.len(),
{
    let q = a.remove(j);
    if q.len() > 0 {
        if j == a.len() - 1 {
            assert(q =~= a.drop_last());
            lemma_distance_to_self(q);
        } else {
            assert(q.drop_last() =~= a.drop_last().remove(j));
            lemma_deletion_distance(a.drop_last(), j);
        }
    }
}

pub proof fn lemma_one_edit_distance(query: Seq<char>, name: Seq<char>)
    requires
        one_edit_apart(query, name),
    ensures
        edit_distance(query, name) <= 1,
{
    let (j, x) = choose|j: int, x: char|
        {
            ||| (0 <= j < name.len() && query == name.update(j, x))
            ||| (0 <= j <= name.len() && query == name.insert(j, x))
            ||| (0 <= j < name.len() && query == name.remove(j))
        };
    if 0 <= j < name.len() && query == name.update(j, x) {
        lemma_substitution_distance(name, j, x);
    } else if 0 <= j <= name.len() && query == name.insert(j, x) {
        lemma_insertion_distance(name, j, x);
    } else {
        lemma_deletion_distance(name, j);
    }
}

/// A query one edit away from a candidate is matched to that candidate
/// whenever every other candidate is two or more edits away.
pub proof fn lemma_single_edit_is_closest(query: Seq<char>, names: Seq<Seq<char>>, k: int, i: int)
    requires
        0 <= k < names.len(),
        one_edit_apart(query, names[k]),
        forall|j: int| 0 <= j < names.len() && j != k ==> edit_distance(query, names[j]) >= 2,
        is_closest(query, names, i),
    ensures
        i == k,
{
    lemma_one_edit_distance(query, names[k]);
    assert(edit_distance(query, names[i]) <= edit_distance(query, names[k]));
}

/// The first candidate at the smallest edit distance from `query`.
pub open spec fn closest_index(query: Seq<char>, names: Seq<Seq<char>>) -> int {
    choose|i: int| is_closest(query, names, i)
}

pub proof fn lemma_closest_index_is(query: Seq<char>, names: Seq<Seq<char>>, i: int)
    requires
        is_closest(query, names, i),
    ensures
        closest_index(query, names) == i,
{
    lemma_closest_unique(query, names, i, closest_index(query, names));
}

} // verus!
