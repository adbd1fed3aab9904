//! The text format, as mathematics: how a text falls into lines, which lines
//! are entries, and how entries are written back as text.

use vstd::prelude::*;

verus! {

/// One line of a hosts file: an address and the hostname that it is given to.
pub struct Entry {
    pub hostname: Seq<char>,
    pub address: Seq<char>,
}

/// A table as contracts see it: the address of each hostname.
pub type Table = Map<Seq<char>, Seq<char>>;

/// The position of the first `c` in `s`, or the length of `s` where it has none.
pub open spec fn find(s: Seq<char>, c: char) -> int
    decreases s.len(),
{
    if s.len() == 0 || s[0] == c {
        0
    } else {
        1 + find(s.drop_first(), c)
    }
}

/// A line without the carriage return that ended it, if one did.
pub open spec fn without_cr(line: Seq<char>) -> Seq<char> {
    if line.len() > 0 && line.last() == '\r' {
        line.drop_last()
    } else {
        line
    }
}

/// The lines of a text. A line ends at a line feed, or at a carriage return
/// directly before one; neither belongs to the line. What follows the last line
/// feed is a line too, whole, unless it is empty.
pub open spec fn lines(text: Seq<char>) -> Seq<Seq<char>>
    decreases text.len(),
    via lines_decreases
{
    let end = find(text, '\n');
    if text.len() == 0 {
        Seq::empty()
    } else if end >= text.len() {
        seq![text]
    } else {
        seq![without_cr(text.take(end))] + lines(text.skip(end + 1))
    }
}

#[via_fn]
proof fn lines_decreases(text: Seq<char>) {
    lemma_find(text, '\n');
}

/// What a line says. A line that begins with `#` is a comment and says nothing,
/// nor does a line without a space. Any other line gives the address, before its
/// first space, to the hostname, which is all that follows that space.
pub open spec fn entry_of(line: Seq<char>) -> Option<Entry> {
    let space = find(line, ' ');
    if line.len() > 0 && line[0] == '#' {
        None
    } else if space >= line.len() {
        None
    } else {
        Some(Entry { hostname: line.skip(space + 1), address: line.take(space) })
    }
}

/// The table after one more line: the line's entry replaces what the hostname had.
pub open spec fn add_line(table: Table, line: Seq<char>) -> Table {
    match entry_of(line) {
        Some(entry) => table.insert(entry.hostname, entry.address),
        None => table,
    }
}

/// The table after some more lines, taken from first to last.
pub open spec fn add_lines(table: Table, more: Seq<Seq<char>>) -> Table
    decreases more.len(),
{
    if more.len() == 0 {
        table
    } else {
        add_lines(add_line(table, more[0]), more.drop_first())
    }
}

/// The table that a text describes.
pub open spec fn parsed(text: Seq<char>) -> Table {
    add_lines(Map::empty(), lines(text))
}

/// The line that states an entry: address, one space, hostname.
pub open spec fn line_of(entry: Entry) -> Seq<char> {
    entry.address + seq![' '] + entry.hostname
}

/// Lines put together as one text, a line feed between each two, none at the end.
pub open spec fn joined(lines: Seq<Seq<char>>) -> Seq<char>
    decreases lines.len(),
{
    if lines.len() == 0 {
        Seq::empty()
    } else if lines.len() == 1 {
        lines[0]
    } else {
        joined(lines.drop_last()) + seq!['\n'] + lines.last()
    }
}

/// `find` stays within the string, stops on `c`, and passes over nothing that is `c`.
pub proof fn lemma_find(s: Seq<char>, c: char)
    ensures
        0 <= find(s, c) <= s.len(),
        find(s, c) < s.len() ==> s[find(s, c)] == c,
        forall|i: int| 0 <= i < find(s, c) ==> s[i] != c,
    decreases s.len(),
{
    if s.len() > 0 && s[0] != c {
        lemma_find(s.drop_first(), c);
        assert forall|i: int| 0 <= i < find(s, c) implies s[i] != c by {
            if i > 0 {
                assert(s.drop_first()[i - 1] == s[i]);
            }
        }
    }
}

/// The first `c` is found where the string has one and none before it.
pub proof fn lemma_find_at(s: Seq<char>, c: char, at: int)
    requires
        0 <= at <= s.len(),
        at < s.len() ==> s[at] == c,
        forall|i: int| 0 <= i < at ==> s[i] != c,
    ensures
        find(s, c) == at,
{
    lemma_find(s, c);
}

/// A text whose first line feed follows `line` has `line` as its first line, less
/// a carriage return at its end.
pub proof fn lemma_lines_first(line: Seq<char>, rest: Seq<char>)
    requires
        !line.contains('\n'),
    ensures
        lines(line + seq!['\n'] + rest) == seq![without_cr(line)] + lines(rest),
{
    let text = line + seq!['\n'] + rest;
    assert forall|i: int| 0 <= i < line.len() implies text[i] != '\n' by {
        assert(line.contains(line[i]));
    }
    lemma_find_at(text, '\n', line.len() as int);
    assert(text.take(line.len() as int) =~= line);
    assert(text.skip(line.len() as int + 1) =~= rest);
}

/// Lines are added one after the other.
pub proof fn lemma_add_lines_first(table: Table, line: Seq<char>, more: Seq<Seq<char>>)
    ensures
        add_lines(table, seq![line] + more) == add_lines(add_line(table, line), more),
{
    assert((seq![line] + more).drop_first() =~= more);
}

/// A text without a line feed is one line, or none where it is empty.
pub proof fn lemma_lines_last(line: Seq<char>)
    requires
        !line.contains('\n'),
    ensures
        lines(line) == if line.len() == 0 {
            Seq::<Seq<char>>::empty()
        } else {
            seq![line]
        },
{
    assert forall|i: int| 0 <= i < line.len() implies line[i] != '\n' by {
        assert(line.contains(line[i]));
    }
    lemma_find_at(line, '\n', line.len() as int);
}

} // verus!
