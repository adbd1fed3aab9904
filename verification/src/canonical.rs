//! Canonical form: the tables that are read back from their own text, and the
//! texts that reading and writing leave as they are.

use crate::grammar::{
    add_line, add_lines, entry_of, find, joined, lemma_find, lemma_find_at, lemma_lines_first,
    lemma_lines_last, line_of, lines, parsed, without_cr, Entry, Table,
};
use crate::laws::{lemma_last_line_wins, lemma_unnamed_hostname_stays};
use crate::listing::{entry_le, lemma_sorted_entries, lines_of, lists, rendered, sorted_entries};
use crate::order::{lemma_str_lt_asymmetric, lemma_str_lt_irreflexive, str_le};
use vstd::prelude::*;

verus! {

/// An entry that its own line gives back: no line feed in it, no space in the
/// address, and no `#` at the start of the address.
pub open spec fn clean(entry: Entry) -> bool {
    &&& !entry.hostname.contains('\n')
    &&& !entry.address.contains('\n')
    &&& !entry.address.contains(' ')
    &&& !(entry.address.len() > 0 && entry.address[0] == '#')
}

/// Every entry of the table is clean.
pub open spec fn all_clean(table: Table) -> bool {
    forall|hostname: Seq<char>| #[trigger]
        table.contains_key(hostname) ==> clean(Entry { hostname, address: table[hostname] })
}

/// The string ends with a carriage return.
pub open spec fn ends_with_cr(s: Seq<char>) -> bool {
    s.len() > 0 && s.last() == '\r'
}

/// No hostname of the table ends with a carriage return, but for the hostname
/// that comes after all others, which may.
pub open spec fn cr_only_at_the_end(table: Table) -> bool {
    forall|hostname: Seq<char>, other: Seq<char>|
        #[trigger] table.contains_key(hostname) && ends_with_cr(hostname)
            && #[trigger] table.contains_key(other) ==> str_le(other, hostname)
}

/// A table in canonical form: one that its own text describes. Every entry is
/// clean, and a carriage return ends no hostname but the last.
pub open spec fn canonical(table: Table) -> bool {
    all_clean(table) && cr_only_at_the_end(table)
}

/// What reading finds of lines that were joined: every line but the last has lost
/// the carriage return that ended it.
pub open spec fn read_back(all: Seq<Seq<char>>) -> Seq<Seq<char>> {
    Seq::new(
        all.len(),
        |i: int|
            if i < all.len() - 1 {
                without_cr(all[i])
            } else {
                all[i]
            },
    )
}

/// The line of a clean entry says that entry.
pub proof fn lemma_line_of_clean_entry(entry: Entry)
    requires
        clean(entry),
    ensures
        entry_of(line_of(entry)) == Some(entry),
        line_of(entry).len() > 0,
        !line_of(entry).contains('\n'),
        ends_with_cr(line_of(entry)) == ends_with_cr(entry.hostname),
{
    let line = line_of(entry);
    let space = entry.address.len() as int;
    assert(line[space] == ' ');
    assert forall|i: int| 0 <= i < space implies line[i] != ' ' by {
        assert(line[i] == entry.address[i]);
        assert(entry.address.contains(entry.address[i]));
    }
    lemma_find_at(line, ' ', space);
    assert(line.take(space) =~= entry.address);
    assert(line.skip(space + 1) =~= entry.hostname);
    if line.contains('\n') {
        let i = choose|i: int| 0 <= i < line.len() && line[i] == '\n';
        if i < space {
            assert(entry.address[i] == '\n');
            assert(entry.address.contains('\n'));
        } else {
            assert(entry.hostname[i - space - 1] == '\n');
            assert(entry.hostname.contains('\n'));
        }
    }
    if entry.hostname.len() > 0 {
        assert(line.last() == entry.hostname.last());
    }
}

/// Joining puts the first line, a line feed, and the other lines joined.
proof fn lemma_joined_first(first: Seq<char>, rest: Seq<Seq<char>>)
    requires
        rest.len() > 0,
    ensures
        joined(seq![first] + rest) == first + seq!['\n'] + joined(rest),
    decreases rest.len(),
{
    let all = seq![first] + rest;
    assert(all.last() == rest.last());
    assert(all.drop_last() =~= seq![first] + rest.drop_last());
    if rest.len() == 1 {
        assert(all.drop_last() =~= seq![first]);
        assert(joined(all.drop_last()) == first);
    } else {
        lemma_joined_first(first, rest.drop_last());
        assert(joined(all) =~= first + seq!['\n'] + joined(rest));
    }
}

/// Lines that were joined are found again, each a line on its own, but without
/// the carriage return that ended any of them before the last.
pub proof fn lemma_lines_of_joined(all: Seq<Seq<char>>)
    requires
        forall|i: int| 0 <= i < all.len() ==> (#[trigger] all[i]).len() > 0 && !all[i].contains('\n'),
    ensures
        lines(joined(all)) == read_back(all),
    decreases all.len(),
{
    if all.len() == 0 {
        lemma_lines_last(Seq::empty());
        assert(read_back(all) =~= Seq::empty());
    } else if all.len() == 1 {
        lemma_lines_last(all[0]);
        assert(read_back(all) =~= seq![all[0]]);
    } else {
        let rest = all.drop_first();
        assert(all =~= seq![all[0]] + rest);
        lemma_joined_first(all[0], rest);
        lemma_lines_first(all[0], joined(rest));
        assert forall|i: int| 0 <= i < rest.len() implies (#[trigger] rest[i]).len() > 0
            && !rest[i].contains('\n') by {
            assert(rest[i] == all[i + 1]);
        }
        lemma_lines_of_joined(rest);
        assert(read_back(all) =~= seq![without_cr(all[0])] + read_back(rest));
    }
}

/// The text of a table in canonical form describes that table, so that writing
/// the table, reading the text and writing again gives the text unchanged.
pub proof fn lemma_canonical_table_is_read_back(table: Table)
    requires
        table.dom().finite(),
        canonical(table),
    ensures
        parsed(rendered(table)) == table,
        rendered(parsed(rendered(table))) == rendered(table),
{
    lemma_sorted_entries(table);
    let entries = sorted_entries(table);
    let all = lines_of(entries);
    assert forall|i: int| 0 <= i < entries.len() implies clean(#[trigger] entries[i]) by {
        assert(table.contains_pair(entries[i].hostname, entries[i].address));
    }
    assert forall|i: int| 0 <= i < all.len() implies (#[trigger] all[i]).len() > 0
        && !all[i].contains('\n') && entry_of(all[i]) == Some(entries[i]) by {
        lemma_line_of_clean_entry(entries[i]);
    }
    assert forall|i: int| 0 <= i < all.len() - 1 implies !ends_with_cr(#[trigger] all[i]) by {
        lemma_line_of_clean_entry(entries[i]);
        let last = entries[all.len() - 1];
        assert(table.contains_pair(entries[i].hostname, entries[i].address));
        assert(table.contains_pair(last.hostname, last.address));
        if ends_with_cr(entries[i].hostname) {
            assert(str_le(last.hostname, entries[i].hostname));
            assert(entry_le(entries[i], last));
            lemma_str_lt_irreflexive(last.hostname);
            if last.hostname != entries[i].hostname {
                lemma_str_lt_asymmetric(last.hostname, entries[i].hostname);
            }
        }
    }
    lemma_lines_of_joined(all);
    assert(read_back(all) =~= all);
    lemma_lines_describe(table, entries, all);
}

/// Lines that say the entries of a list, one each, describe the table so listed.
proof fn lemma_lines_describe(table: Table, entries: Seq<Entry>, all: Seq<Seq<char>>)
    requires
        lists(entries, table),
        all.len() == entries.len(),
        forall|i: int| 0 <= i < all.len() ==> entry_of(#[trigger] all[i]) == Some(entries[i]),
    ensures
        add_lines(Map::empty(), all) == table,
{
    let read = add_lines(Map::empty(), all);
    assert forall|hostname: Seq<char>|
        #![trigger read.contains_key(hostname)]
        #![trigger table.contains_key(hostname)]
        #![trigger read.dom().contains(hostname)]
        #![trigger table.dom().contains(hostname)]
        read.contains_key(hostname) == table.contains_key(hostname) && (table.contains_key(
            hostname,
        ) ==> read[hostname] == table[hostname]) by {
        if table.contains_key(hostname) {
            let at = choose|at: int|
                0 <= at < entries.len() && (#[trigger] entries[at]).hostname == hostname;
            assert(entry_of(all[at]) == Some(entries[at]));
            assert(table.contains_pair(entries[at].hostname, entries[at].address));
            lemma_last_line_wins(Map::empty(), all, at);
        } else {
            assert forall|i: int| 0 <= i < all.len() implies (entry_of(#[trigger] all[i]) matches Some(
                entry,
            ) ==> entry.hostname != hostname) by {
                assert(table.contains_pair(entries[i].hostname, entries[i].address));
            }
            lemma_unnamed_hostname_stays(Map::empty(), all, hostname);
        }
    }
    assert(read =~= table);
}

/// No line of a text holds a line feed.
pub proof fn lemma_lines_hold_no_line_feed(text: Seq<char>)
    ensures
        forall|i: int| 0 <= i < lines(text).len() ==> !(#[trigger] lines(text)[i]).contains('\n'),
    decreases text.len(),
{
    let end = find(text, '\n');
    lemma_find(text, '\n');
    if text.len() == 0 {
    } else if end >= text.len() {
        if text.contains('\n') {
            let k = choose|k: int| 0 <= k < text.len() && text[k] == '\n';
            assert(k < end);
        }
    } else {
        let first = without_cr(text.take(end));
        let rest = text.skip(end + 1);
        lemma_lines_hold_no_line_feed(rest);
        if first.contains('\n') {
            let k = choose|k: int| 0 <= k < first.len() && first[k] == '\n';
            assert(text[k] == '\n');
        }
        assert forall|i: int| 0 <= i < lines(text).len() implies !(#[trigger] lines(
            text,
        )[i]).contains('\n') by {
            if i > 0 {
                assert(lines(text)[i] == lines(rest)[i - 1]);
            }
        }
    }
}

/// What a line without a line feed says is a clean entry.
pub proof fn lemma_entry_of_line_is_clean(line: Seq<char>)
    requires
        !line.contains('\n'),
        entry_of(line) is Some,
    ensures
        clean(entry_of(line)->0),
{
    let entry = entry_of(line)->0;
    let space = find(line, ' ');
    lemma_find(line, ' ');
    if entry.hostname.contains('\n') {
        let k = choose|k: int| 0 <= k < entry.hostname.len() && entry.hostname[k] == '\n';
        assert(line[space + 1 + k] == '\n');
    }
    if entry.address.contains('\n') {
        let k = choose|k: int| 0 <= k < entry.address.len() && entry.address[k] == '\n';
        assert(line[k] == '\n');
    }
    if entry.address.contains(' ') {
        let k = choose|k: int| 0 <= k < entry.address.len() && entry.address[k] == ' ';
        assert(line[k] == ' ');
    }
    if entry.address.len() > 0 {
        assert(entry.address[0] == line[0]);
    }
}

/// Lines without a line feed leave a finite table of clean entries finite and clean.
proof fn lemma_add_lines_keeps_clean(table: Table, more: Seq<Seq<char>>)
    requires
        table.dom().finite(),
        all_clean(table),
        forall|i: int| 0 <= i < more.len() ==> !(#[trigger] more[i]).contains('\n'),
    ensures
        add_lines(table, more).dom().finite(),
        all_clean(add_lines(table, more)),
    decreases more.len(),
{
    if more.len() > 0 {
        let next = add_line(table, more[0]);
        if entry_of(more[0]) is Some {
            lemma_entry_of_line_is_clean(more[0]);
        }
        let rest = more.drop_first();
        assert forall|i: int| 0 <= i < rest.len() implies !(#[trigger] rest[i]).contains('\n') by {
            assert(rest[i] == more[i + 1]);
        }
        lemma_add_lines_keeps_clean(next, rest);
    }
}

/// Every text describes a finite table of clean entries.
pub proof fn lemma_parsed_is_clean(text: Seq<char>)
    ensures
        parsed(text).dom().finite(),
        all_clean(parsed(text)),
{
    lemma_lines_hold_no_line_feed(text);
    lemma_add_lines_keeps_clean(Map::empty(), lines(text));
}

/// Without the carriage return at its end, the line of a clean entry says the
/// entry whose hostname is without it.
proof fn lemma_line_without_cr(entry: Entry)
    requires
        clean(entry),
    ensures
        entry_of(without_cr(line_of(entry))) == Some(
            Entry { hostname: without_cr(entry.hostname), address: entry.address },
        ),
{
    lemma_line_of_clean_entry(entry);
    if ends_with_cr(entry.hostname) {
        let shorter = Entry { hostname: entry.hostname.drop_last(), address: entry.address };
        if shorter.hostname.contains('\n') {
            let k = choose|k: int| 0 <= k < shorter.hostname.len() && shorter.hostname[k] == '\n';
            assert(entry.hostname[k] == '\n');
        }
        lemma_line_of_clean_entry(shorter);
        assert(line_of(entry).drop_last() =~= line_of(shorter));
    }
}

/// The length of the longest hostname among some entries.
spec fn longest(entries: Seq<Entry>) -> nat
    decreases entries.len(),
{
    if entries.len() == 0 {
        0
    } else if entries.last().hostname.len() > longest(entries.drop_last()) {
        entries.last().hostname.len()
    } else {
        longest(entries.drop_last())
    }
}

proof fn lemma_longest(entries: Seq<Entry>)
    ensures
        forall|i: int| 0 <= i < entries.len() ==> (#[trigger] entries[i]).hostname.len() <= longest(entries),
    decreases entries.len(),
{
    if entries.len() > 0 {
        lemma_longest(entries.drop_last());
        assert forall|i: int| 0 <= i < entries.len() implies (#[trigger] entries[i]).hostname.len()
            <= longest(entries) by {
            if i < entries.len() - 1 {
                assert(entries.drop_last()[i] == entries[i]);
            }
        }
    }
}

/// The hostname that the line of `entries[i]` gives when it is read back.
spec fn hostname_read_back(entries: Seq<Entry>, i: int) -> Seq<char> {
    if i < entries.len() - 1 {
        without_cr(entries[i].hostname)
    } else {
        entries[i].hostname
    }
}

/// A table that is read back from its text has no carriage return at the end of
/// a hostname before the last: the text would have to hold that hostname with
/// one more carriage return, and so on without end.
proof fn lemma_no_cr_before_the_last(
    table: Table,
    entries: Seq<Entry>,
    read: Seq<Seq<char>>,
    at: int,
)
    requires
        lists(entries, table),
        read.len() == entries.len(),
        forall|i: int|
            0 <= i < read.len() ==> entry_of(#[trigger] read[i]) == Some(
                Entry { hostname: hostname_read_back(entries, i), address: entries[i].address },
            ),
        add_lines(Map::empty(), read) == table,
        0 <= at < entries.len() - 1,
    ensures
        !ends_with_cr(entries[at].hostname),
    decreases longest(entries) - entries[at].hostname.len(),
{
    lemma_longest(entries);
    let hostname = entries[at].hostname;
    assert(table.contains_pair(entries[at].hostname, entries[at].address));
    if !ends_with_cr(hostname) {
    } else if forall|i: int|
        0 <= i < read.len() ==> (entry_of(#[trigger] read[i]) matches Some(entry) ==> entry.hostname
            != hostname) {
        lemma_unnamed_hostname_stays(Map::empty(), read, hostname);
    } else {
        let from = choose|i: int|
            0 <= i < read.len() && !(entry_of(#[trigger] read[i]) matches Some(entry)
                ==> entry.hostname != hostname);
        assert(hostname_read_back(entries, from) == hostname);
        if from < entries.len() - 1 {
            if ends_with_cr(entries[from].hostname) {
                assert(entries[from].hostname.len() == hostname.len() + 1);
                lemma_no_cr_before_the_last(table, entries, read, from);
            }
        }
    }
}

/// Only a table in canonical form is described by its own text.
pub proof fn lemma_only_canonical_table_is_read_back(table: Table)
    requires
        table.dom().finite(),
        parsed(rendered(table)) == table,
    ensures
        canonical(table),
{
    lemma_parsed_is_clean(rendered(table));
    lemma_sorted_entries(table);
    let entries = sorted_entries(table);
    let all = lines_of(entries);
    assert forall|i: int| 0 <= i < entries.len() implies clean(#[trigger] entries[i]) by {
        assert(table.contains_pair(entries[i].hostname, entries[i].address));
    }
    assert forall|i: int| 0 <= i < all.len() implies (#[trigger] all[i]).len() > 0
        && !all[i].contains('\n') by {
        lemma_line_of_clean_entry(entries[i]);
    }
    lemma_lines_of_joined(all);
    let read = read_back(all);
    assert forall|i: int| 0 <= i < read.len() implies entry_of(#[trigger] read[i]) == Some(
        Entry { hostname: hostname_read_back(entries, i), address: entries[i].address },
    ) by {
        lemma_line_of_clean_entry(entries[i]);
        lemma_line_without_cr(entries[i]);
    }
    assert forall|hostname: Seq<char>, other: Seq<char>|
        #[trigger] table.contains_key(hostname) && ends_with_cr(hostname)
            && #[trigger] table.contains_key(other) implies str_le(other, hostname) by {
        let at = choose|at: int|
            0 <= at < entries.len() && (#[trigger] entries[at]).hostname == hostname;
        let there = choose|there: int|
            0 <= there < entries.len() && (#[trigger] entries[there]).hostname == other;
        if at < entries.len() - 1 {
            lemma_no_cr_before_the_last(table, entries, read, at);
        } else if there < at {
            assert(entry_le(entries[there], entries[at]));
        }
    }
}

/// A text that reading and writing leave as it is, is the text of a table in
/// canonical form: of the table that it describes.
pub proof fn lemma_settled_text_is_canonical(text: Seq<char>)
    requires
        rendered(parsed(text)) == text,
    ensures
        canonical(parsed(text)),
{
    lemma_parsed_is_clean(text);
    lemma_only_canonical_table_is_read_back(parsed(text));
}

/// Reading a text and writing the table settles the text: read and written once
/// more it stays as it is, provided that among the hostnames read only the last
/// one ends with a carriage return.
pub proof fn lemma_written_text_is_settled(text: Seq<char>)
    requires
        cr_only_at_the_end(parsed(text)),
    ensures
        parsed(rendered(parsed(text))) == parsed(text),
        rendered(parsed(rendered(parsed(text)))) == rendered(parsed(text)),
{
    lemma_parsed_is_clean(text);
    lemma_canonical_table_is_read_back(parsed(text));
}

} // verus!
