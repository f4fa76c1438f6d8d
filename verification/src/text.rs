//! Finding the first occurrence of a character in a string.
use vstd::prelude::*;

verus! {

/// The position of the first occurrence of `c` in `s`, if any.
pub open spec fn first_index(s: Seq<char>, c: char) -> Option<nat>
    decreases s.len(),
{
    if s.len() == 0 {
        Option::None
    } else if s[0] == c {
        Option::Some(0nat)
    } else {
        match first_index(s.drop_first(), c) {
            Option::Some(i) => Option::Some((i + 1) as nat),
            Option::None => Option::None,
        }
    }
}

/// An occurrence at `i` with none before it is the first occurrence.
proof fn lemma_first_index_at(s: Seq<char>, c: char, i: int)
    requires
        0 <= i < s.len(),
        s[i] == c,
        forall|j: int| 0 <= j < i ==> s[j] != c,
    ensures
        first_index(s, c) == Option::Some(i as nat),
    decreases i,
{
    if i > 0 {
        lemma_first_index_at(s.drop_first(), c, i - 1);
    }
}

/// Without any occurrence there is no first occurrence.
proof fn lemma_first_index_none(s: Seq<char>, c: char)
    requires
        forall|j: int| 0 <= j < s.len() ==> s[j] != c,
    ensures
        first_index(s, c) == Option::<nat>::None,
    decreases s.len(),
{
    if s.len() > 0 {
        lemma_first_index_none(s.drop_first(), c);
    }
}

/// Find the first occurrence of `c` in `s`, if any.
pub fn find_char(s: &str, c: char) -> (r: Option<usize>)
    ensures
        match r {
            Option::Some(i) => first_index(s@, c) == Option::Some(i as nat) && i < s@.len()
                && s@[i as int] == c,
            Option::None => first_index(s@, c) == Option::<nat>::None,
        },
{
    let n = s.unicode_len();
    let mut i: usize = 0;
    let mut found: Option<usize> = None;
    while i < n
        invariant_except_break
            found is None,
        invariant
            i <= n,
            n == s@.len(),
            forall|j: int| 0 <= j < i ==> s@[j] != c,
        ensures
            i <= n,
            n == s@.len(),
            forall|j: int| 0 <= j < i ==> s@[j] != c,
            match found {
                Option::Some(k) => k == i && i < n && s@[i as int] == c,
                Option::None => i == n,
            },
        decreases n - i,
    {
        if s.get_char(i) == c {
            found = Some(i);
            break ;
        }
        i += 1;
    }
    match found {
        Some(k) => {
            proof {
                lemma_first_index_at(s@, c, k as int);
            }
            Some(k)
        },
        None => {
            proof {
                lemma_first_index_none(s@, c);
            }
            None
        },
    }
}

} // verus!
