//! Strings, character by character.

use vstd::prelude::*;

verus! {

/// `String::push` of std, which vstd leaves without a contract: the string is
/// afterwards what it was, with `c` as one more character at its end.
pub assume_specification[ String::push ](s: &mut String, c: char)
    ensures
        final(s)@ == old(s)@.push(c),
;

/// The characters of `line` from `from` up to `to`, as a string.
pub(crate) fn string_between(line: &Vec<char>, from: usize, to: usize) -> (s: String)
    requires
        from <= to <= line.len(),
    ensures
        s@ == line@.subrange(from as int, to as int),
{
    let mut s = String::new();
    let mut i: usize = from;
    while i < to
        invariant
            from <= i <= to <= line.len(),
            s@ == line@.subrange(from as int, i as int),
        decreases to - i,
    {
        s.push(line[i]);
        i += 1;
        assert(line@.subrange(from as int, i as int) =~= line@.subrange(from as int, i - 1).push(
            line[i - 1],
        ));
    }
    s
}

} // verus!
