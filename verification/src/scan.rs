//! Locating a delimiter character inside a character sequence.

use vstd::prelude::*;

verus! {

/// Does `c` occur anywhere in `s`?
pub open spec fn contains_char(s: Seq<char>, c: char) -> bool {
    exists|i: int| 0 <= i < s.len() && s[i] == c
}

/// Index of the first occurrence of `c` in `s` (meaningful only when
/// `contains_char(s, c)` holds).
pub open spec fn first_idx(s: Seq<char>, c: char) -> int
    decreases s.len(),
{
    if s.len() == 0 {
        0
    } else if s[0] == c {
        0
    } else {
        1 + first_idx(s.drop_first(), c)
    }
}

/// When `c` occurs, `first_idx` points at its first occurrence.
pub proof fn lemma_first_idx(s: Seq<char>, c: char)
    requires
        contains_char(s, c),
    ensures
        0 <= first_idx(s, c) < s.len(),
        s[first_idx(s, c)] == c,
        forall|j: int| 0 <= j < first_idx(s, c) ==> s[j] != c,
    decreases s.len(),
{
    if s.len() == 0 {
    } else if s[0] == c {
    } else {
        let i = choose|i: int| 0 <= i < s.len() && s[i] == c;
        assert(s.drop_first()[i - 1] == c);
        lemma_first_idx(s.drop_first(), c);
        assert forall|j: int| 0 <= j < first_idx(s, c) implies s[j] != c by {
            if j > 0 {
                assert(s[j] == s.drop_first()[j - 1]);
            }
        }
    }
}

/// An occurrence of `c` with no occurrence before it is the first one.
pub proof fn lemma_first_idx_at(s: Seq<char>, c: char, i: int)
    requires
        0 <= i < s.len(),
        s[i] == c,
        forall|j: int| 0 <= j < i ==> s[j] != c,
    ensures
        contains_char(s, c),
        first_idx(s, c) == i,
    decreases s.len(),
{
    if i == 0 {
    } else {
        assert(s[0] != c);
        assert(s.drop_first()[i - 1] == c);
        assert forall|j: int| 0 <= j < i - 1 implies s.drop_first()[j] != c by {
            assert(s.drop_first()[j] == s[j + 1]);
        }
        lemma_first_idx_at(s.drop_first(), c, i - 1);
    }
}

} // verus!
