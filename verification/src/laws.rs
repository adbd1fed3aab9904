//! What holds of reading, merging and writing tables, whatever the input.

use crate::grammar::{add_line, add_lines, entry_of, find, lemma_find, parsed, Table};
use crate::listing::{lemma_sorted_entries, rendered, sorted_entries};
use vstd::prelude::*;

verus! {

/// The lines that say nothing are the comments and the lines without a space;
/// the empty line is one of the latter.
pub proof fn lemma_lines_without_entry(line: Seq<char>)
    ensures
        entry_of(line) is None <==> (line.len() > 0 && line[0] == '#') || !line.contains(' '),
        entry_of(Seq::empty()) is None,
{
    lemma_find(line, ' ');
    if line.contains(' ') {
        let i = choose|i: int| 0 <= i < line.len() && line[i] == ' ';
        assert(find(line, ' ') <= i);
    }
    lemma_find(Seq::empty(), ' ');
}

/// A line that says nothing changes no table, wherever among the lines it stands.
pub proof fn lemma_line_without_entry_adds_nothing(
    table: Table,
    lines: Seq<Seq<char>>,
    at: int,
    line: Seq<char>,
)
    requires
        0 <= at <= lines.len(),
        entry_of(line) is None,
    ensures
        add_lines(table, lines.insert(at, line)) == add_lines(table, lines),
    decreases lines.len(),
{
    let longer = lines.insert(at, line);
    if at == 0 {
        assert(longer.drop_first() =~= lines);
    } else {
        assert(longer[0] == lines[0]);
        assert(longer.drop_first() =~= lines.drop_first().insert(at - 1, line));
        lemma_line_without_entry_adds_nothing(
            add_line(table, lines[0]),
            lines.drop_first(),
            at - 1,
            line,
        );
    }
}

/// The last line that names a hostname decides its address.
pub proof fn lemma_last_line_wins(table: Table, lines: Seq<Seq<char>>, at: int)
    requires
        0 <= at < lines.len(),
        entry_of(lines[at]) is Some,
        forall|later: int|
            at < later < lines.len() ==> (entry_of(#[trigger] lines[later]) matches Some(entry)
                ==> entry.hostname != entry_of(lines[at])->0.hostname),
    ensures
        add_lines(table, lines).contains_pair(
            entry_of(lines[at])->0.hostname,
            entry_of(lines[at])->0.address,
        ),
    decreases lines.len(),
{
    let rest = lines.drop_first();
    if at == 0 {
        assert forall|i: int| 0 <= i < rest.len() implies (entry_of(#[trigger] rest[i]) matches Some(
            entry,
        ) ==> entry.hostname != entry_of(lines[0])->0.hostname) by {
            assert(rest[i] == lines[i + 1]);
        }
        lemma_unnamed_hostname_stays(add_line(table, lines[0]), rest, entry_of(lines[0])->0.hostname);
    } else {
        assert(rest[at - 1] == lines[at]);
        assert forall|later: int| at - 1 < later < rest.len() implies (entry_of(
            #[trigger] rest[later],
        ) matches Some(entry) ==> entry.hostname != entry_of(rest[at - 1])->0.hostname) by {
            assert(rest[later] == lines[later + 1]);
        }
        lemma_last_line_wins(add_line(table, lines[0]), rest, at - 1);
    }
}

/// A hostname that no line names keeps what it had: its address, or none.
pub proof fn lemma_unnamed_hostname_stays(table: Table, lines: Seq<Seq<char>>, hostname: Seq<char>)
    requires
        forall|i: int|
            0 <= i < lines.len() ==> (entry_of(#[trigger] lines[i]) matches Some(entry)
                ==> entry.hostname != hostname),
    ensures
        add_lines(table, lines).contains_key(hostname) == table.contains_key(hostname),
        add_lines(table, lines)[hostname] == table[hostname],
    decreases lines.len(),
{
    if lines.len() > 0 {
        let rest = lines.drop_first();
        assert forall|i: int| 0 <= i < rest.len() implies (entry_of(#[trigger] rest[i]) matches Some(
            entry,
        ) ==> entry.hostname != hostname) by {
            assert(rest[i] == lines[i + 1]);
        }
        lemma_unnamed_hostname_stays(add_line(table, lines[0]), rest, hostname);
    }
}

/// The empty text describes the empty table, and the empty table is written as the
/// empty text.
pub proof fn lemma_empty_text_and_table()
    ensures
        parsed(Seq::empty()) == Table::empty(),
        rendered(Map::empty()) == Seq::<char>::empty(),
{
    let nothing = Table::empty();
    assert(nothing.dom().finite());
    lemma_sorted_entries(nothing);
    let entries = sorted_entries(nothing);
    if entries.len() > 0 {
        assert(nothing.contains_pair(entries[0].hostname, entries[0].address));
    }
}

/// Merging takes the address from the table merged in wherever that table has
/// the hostname, and keeps the receiver's own address everywhere else.
pub proof fn lemma_merge_prefers_the_other(receiver: Table, other: Table, hostname: Seq<char>)
    ensures
        receiver.union_prefer_right(other).contains_key(hostname) <==> receiver.contains_key(
            hostname,
        ) || other.contains_key(hostname),
        other.contains_key(hostname) ==> receiver.union_prefer_right(other)[hostname]
            == other[hostname],
        !other.contains_key(hostname) && receiver.contains_key(hostname)
            ==> receiver.union_prefer_right(other)[hostname] == receiver[hostname],
{
}

} // verus!
