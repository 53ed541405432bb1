//! The final path segment of a node identifier.

use vstd::prelude::*;
use vstd::std_specs::iter::IteratorSpec;

verus! {

/// Index of the last `'/'` in `s`, or `-1` when `s` holds none.
pub open spec fn last_slash(s: Seq<char>) -> int
    decreases s.len(),
{
    if s.len() == 0 {
        -1
    } else if s.last() == '/' {
        s.len() - 1
    } else {
        last_slash(s.drop_last())
    }
}

/// What follows the last `'/'` of `s`; all of `s` when it holds no `'/'`.
pub open spec fn last_segment(s: Seq<char>) -> Seq<char> {
    s.subrange(last_slash(s) + 1, s.len() as int)
}

/// `last_slash` points at a slash that no slash follows.
pub proof fn lemma_last_slash(s: Seq<char>)
    ensures
        -1 <= last_slash(s) < s.len(),
        last_slash(s) >= 0 ==> s[last_slash(s)] == '/',
        forall|i: int| last_slash(s) < i < s.len() ==> s[i] != '/',
    decreases s.len(),
{
    if s.len() > 0 && s.last() != '/' {
        let front = s.drop_last();
        lemma_last_slash(front);
        assert forall|i: int| last_slash(s) < i < s.len() implies s[i] != '/' by {
            if i < front.len() {
                assert(s[i] == front[i]);
            }
        }
    }
}

/// The part of `link` after its last `'/'`.
pub fn link_last_part(link: &str) -> (part: &str)
    ensures
        part@ == last_segment(link@),
{
    broadcast use vstd::string::group_string_axioms;

    let total: usize = link.unicode_len();
    let mut start: usize = 0;
    let mut pos: usize = 0;
    let mut rest = link.chars();
    while pos < total
        invariant
            pos <= total == link@.len(),
            rest.remaining() == link@.skip(pos as int),
            start == last_slash(link@.take(pos as int)) + 1,
        decreases total - pos,
    {
        let next = rest.next();
        pos = pos + 1;
        assert(link@.take(pos as int).drop_last() == link@.take(pos - 1));
        assert(link@.skip(pos - 1).drop_first() == link@.skip(pos as int));
        if next == Some('/') {
            start = pos;
        }
    }
    proof {
        assert(link@.take(pos as int) == link@);
        lemma_last_slash(link@);
    }
    link.substring_char(start, pos)
}

} // verus!
