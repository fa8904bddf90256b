//! Finding the first occurrence of a value in a sequence.

use vstd::prelude::*;

verus! {

/// The least index `i >= from` with `s[i] == x`, if there is one.
pub open spec fn first_index_from<T>(s: Seq<T>, x: T, from: int) -> Option<int>
    decreases s.len() - from,
{
    if from < 0 || from >= s.len() {
        None
    } else if s[from] == x {
        Some(from)
    } else {
        first_index_from(s, x, from + 1)
    }
}

/// The least index `i` with `s[i] == x`, if there is one.
pub open spec fn first_index<T>(s: Seq<T>, x: T) -> Option<int> {
    first_index_from(s, x, 0)
}

/// What [`first_index_from`] finds is the least match at or after `from`.
pub proof fn lemma_first_index_from<T>(s: Seq<T>, x: T, from: int)
    requires
        0 <= from,
    ensures
        match first_index_from(s, x, from) {
            Some(i) => from <= i < s.len() && s[i] == x && forall|j: int|
                from <= j < i ==> s[j] != x,
            None => forall|j: int| from <= j < s.len() ==> s[j] != x,
        },
    decreases s.len() - from,
{
    if from < s.len() && s[from] != x {
        lemma_first_index_from(s, x, from + 1);
    }
}

} // verus!
