//! Lists of strings, read as sequences of character sequences.

use vstd::prelude::*;
use vstd::std_specs::iter::IteratorSpec;

verus! {

/// The character sequences that the strings of `list` hold, in order.
pub open spec fn texts(list: Seq<String>) -> Seq<Seq<char>> {
    list.map_values(|s: String| s@)
}

/// A copy of `list` that holds the same texts.
pub fn copy_texts(list: &Vec<String>) -> (copy: Vec<String>)
    ensures
        texts(copy@) == texts(list@),
{
    let mut copy: Vec<String> = Vec::new();
    let mut i: usize = 0;
    while i < list.len()
        invariant
            i <= list.len(),
            copy@.len() == i,
            forall|k: int| 0 <= k < i ==> copy@[k]@ == list@[k]@,
        decreases list.len() - i,
    {
        copy.push(list[i].clone());
        i = i + 1;
    }
    assert(texts(copy@) =~= texts(list@));
    copy
}

/// Whether `text` holds the character `wanted`.
pub fn has_char(text: &str, wanted: char) -> (found: bool)
    ensures
        found == text@.contains(wanted),
{
    broadcast use vstd::string::group_string_axioms;

    let total: usize = text.unicode_len();
    let mut pos: usize = 0;
    let mut rest = text.chars();
    while pos < total
        invariant
            pos <= total == text@.len(),
            rest.remaining() == text@.skip(pos as int),
            forall|k: int| 0 <= k < pos ==> text@[k] != wanted,
        decreases total - pos,
    {
        let next = rest.next();
        assert(text@.skip(pos as int)[0] == text@[pos as int]);
        assert(text@.skip(pos as int).drop_first() == text@.skip(pos + 1));
        if next == Some(wanted) {
            return true;
        }
        pos = pos + 1;
    }
    false
}

/// Whether `text` begins with `prefix`.
pub fn starts_with(text: &str, prefix: &str) -> (begins: bool)
    ensures
        begins == prefix@.is_prefix_of(text@),
{
    broadcast use vstd::string::group_string_axioms;

    let total: usize = prefix.unicode_len();
    if total > text.unicode_len() {
        return false;
    }
    let mut pos: usize = 0;
    let mut rest = text.chars();
    let mut wanted = prefix.chars();
    while pos < total
        invariant
            pos <= total == prefix@.len() <= text@.len(),
            rest.remaining() == text@.skip(pos as int),
            wanted.remaining() == prefix@.skip(pos as int),
            forall|k: int| 0 <= k < pos ==> text@[k] == prefix@[k],
        decreases total - pos,
    {
        let have = rest.next();
        let want = wanted.next();
        assert(text@.skip(pos as int)[0] == text@[pos as int]);
        assert(text@.skip(pos as int).drop_first() == text@.skip(pos + 1));
        assert(prefix@.skip(pos as int)[0] == prefix@[pos as int]);
        assert(prefix@.skip(pos as int).drop_first() == prefix@.skip(pos + 1));
        if have != want {
            assert(text@.subrange(0, prefix@.len() as int)[pos as int] != prefix@[pos as int]);
            return false;
        }
        pos = pos + 1;
    }
    assert(prefix@ =~= text@.subrange(0, prefix@.len() as int));
    true
}

} // verus!
