//! Facts about sequences that several modules share.

use vstd::prelude::*;

verus! {

/// The last position of `c` in `s`, if there is one.
pub open spec fn last_position<T>(s: Seq<T>, c: T) -> Option<int>
    decreases s.len(),
{
    if s.len() == 0 {
        None
    } else if s.last() == c {
        Some(s.len() - 1)
    } else {
        last_position(s.drop_last(), c)
    }
}

/// The first position of `c` in `s`, or the length of `s` if there is none.
pub open spec fn first_position<T>(s: Seq<T>, c: T) -> int
    decreases s.len(),
{
    if s.len() == 0 || s[0] == c {
        0
    } else {
        1 + first_position(s.drop_first(), c)
    }
}

/// `last_position` is the last position.
pub proof fn lemma_last_position<T>(s: Seq<T>, c: T)
    ensures
        match last_position(s, c) {
            None => forall|k: int| 0 <= k < s.len() ==> #[trigger] s[k] != c,
            Some(i) => 0 <= i < s.len() && s[i] == c && forall|k: int|
                i < k < s.len() ==> #[trigger] s[k] != c,
        },
    decreases s.len(),
{
    if s.len() > 0 && s.last() != c {
        lemma_last_position(s.drop_last(), c);
        assert forall|k: int| 0 <= k < s.len() - 1 implies #[trigger] s[k] == s.drop_last()[k] by {}
    }
}

/// `first_position` is the first position.
pub proof fn lemma_first_position<T>(s: Seq<T>, c: T)
    ensures
        0 <= first_position(s, c) <= s.len(),
        first_position(s, c) < s.len() ==> s[first_position(s, c)] == c,
        forall|k: int| 0 <= k < first_position(s, c) ==> #[trigger] s[k] != c,
    decreases s.len(),
{
    if s.len() > 0 && s[0] != c {
        lemma_first_position(s.drop_first(), c);
        assert forall|k: int| 0 < k < s.len() implies #[trigger] s[k] == s.drop_first()[k - 1] by {}
    }
}

/// A position with `c`, and none after it, is the last one.
pub proof fn lemma_last_position_unique<T>(s: Seq<T>, c: T, i: int)
    requires
        0 <= i < s.len(),
        s[i] == c,
        forall|k: int| i < k < s.len() ==> #[trigger] s[k] != c,
    ensures
        last_position(s, c) == Some(i),
{
    lemma_last_position(s, c);
}

} // verus!
