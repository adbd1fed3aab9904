//! The order in which a table is written out, and the text that this gives.

use crate::grammar::{joined, line_of, Entry, Table};
use crate::order::{
    lemma_str_lt_asymmetric, lemma_str_lt_irreflexive, lemma_str_lt_total,
    lemma_str_lt_transitive, str_lt,
};
use vstd::prelude::*;

verus! {

/// `a` comes strictly before `b`: by hostname, and by address where the hostnames
/// are the same.
pub open spec fn entry_lt(a: Entry, b: Entry) -> bool {
    str_lt(a.hostname, b.hostname) || (a.hostname == b.hostname && str_lt(a.address, b.address))
}

/// `a` comes before `b` or is `b`.
pub open spec fn entry_le(a: Entry, b: Entry) -> bool {
    a == b || entry_lt(a, b)
}

/// No entry stands before one that comes before it.
pub open spec fn ascending(entries: Seq<Entry>) -> bool {
    forall|i: int, j: int| 0 <= i < j < entries.len() ==> entry_le(entries[i], entries[j])
}

/// `entries` holds each hostname of `table` once, with its address, and nothing else.
pub open spec fn lists(entries: Seq<Entry>, table: Table) -> bool {
    &&& forall|i: int, j: int|
        0 <= i < j < entries.len() ==> entries[i].hostname != entries[j].hostname
    &&& forall|i: int|
        0 <= i < entries.len() ==> table.contains_pair(
            (#[trigger] entries[i]).hostname,
            entries[i].address,
        )
    &&& forall|hostname: Seq<char>| #[trigger]
        table.contains_key(hostname) ==> exists|i: int|
            0 <= i < entries.len() && (#[trigger] entries[i]).hostname == hostname
}

/// The entries of a table in ascending order. A finite table has exactly one such
/// list: `lemma_sorted_entries` and `lemma_sorted_entries_unique`.
pub open spec fn sorted_entries(table: Table) -> Seq<Entry> {
    choose|entries: Seq<Entry>| lists(entries, table) && ascending(entries)
}

/// The entries that pairs of strings spell out, each pair a hostname and its address.
pub open spec fn entries_of(pairs: Seq<(String, String)>) -> Seq<Entry> {
    pairs.map_values(|pair: (String, String)| Entry { hostname: pair.0@, address: pair.1@ })
}

/// The lines that state some entries, in their order.
pub open spec fn lines_of(entries: Seq<Entry>) -> Seq<Seq<char>> {
    entries.map_values(|entry: Entry| line_of(entry))
}

/// The text of a table: its entries in ascending order, a line each.
pub open spec fn rendered(table: Table) -> Seq<char> {
    joined(lines_of(sorted_entries(table)))
}

/// Two entries that each come before the other, or are it, are one entry.
pub proof fn lemma_entry_le_antisymmetric(a: Entry, b: Entry)
    requires
        entry_le(a, b),
        entry_le(b, a),
    ensures
        a == b,
{
    if a != b {
        if str_lt(a.hostname, b.hostname) {
            lemma_str_lt_asymmetric(a.hostname, b.hostname);
            lemma_str_lt_irreflexive(a.hostname);
        } else {
            lemma_str_lt_irreflexive(a.hostname);
            lemma_str_lt_asymmetric(a.address, b.address);
            lemma_str_lt_irreflexive(a.address);
        }
    }
}

/// Without its first entry, a list lists the table without that hostname.
proof fn lemma_lists_rest(entries: Seq<Entry>, table: Table)
    requires
        lists(entries, table),
        entries.len() > 0,
    ensures
        lists(entries.drop_first(), table.remove(entries[0].hostname)),
        ascending(entries) ==> ascending(entries.drop_first()),
{
    let rest = entries.drop_first();
    let less = table.remove(entries[0].hostname);
    assert forall|i: int, j: int| 0 <= i < j < rest.len() implies rest[i].hostname
        != rest[j].hostname by {
        assert(rest[i] == entries[i + 1] && rest[j] == entries[j + 1]);
    }
    assert forall|i: int| 0 <= i < rest.len() implies less.contains_pair(
        (#[trigger] rest[i]).hostname,
        rest[i].address,
    ) by {
        assert(rest[i] == entries[i + 1]);
    }
    assert forall|hostname: Seq<char>| #[trigger] less.contains_key(hostname) implies exists|
        i: int,
    |
        0 <= i < rest.len() && (#[trigger] rest[i]).hostname == hostname by {
        assert(table.contains_key(hostname));
        let i = choose|i: int| 0 <= i < entries.len() && (#[trigger] entries[i]).hostname == hostname;
        assert(rest[i - 1] == entries[i]);
    }
    if ascending(entries) {
        assert forall|i: int, j: int| 0 <= i < j < rest.len() implies entry_le(
            rest[i],
            rest[j],
        ) by {
            assert(rest[i] == entries[i + 1] && rest[j] == entries[j + 1]);
        }
    }
}

/// The first of an ascending list comes before every entry of the table.
proof fn lemma_first_is_least(entries: Seq<Entry>, table: Table, other: Entry)
    requires
        lists(entries, table),
        ascending(entries),
        table.contains_pair(other.hostname, other.address),
    ensures
        entries.len() > 0,
        entry_le(entries[0], other),
{
    let i = choose|i: int| 0 <= i < entries.len() && (#[trigger] entries[i]).hostname == other.hostname;
    assert(table.contains_pair(entries[i].hostname, entries[i].address));
    assert(entries[i] == other);
}

/// A table has at most one ascending list of its entries.
pub proof fn lemma_sorted_entries_unique(table: Table, first: Seq<Entry>, second: Seq<Entry>)
    requires
        lists(first, table),
        ascending(first),
        lists(second, table),
        ascending(second),
    ensures
        first == second,
    decreases first.len(),
{
    if first.len() == 0 {
        if second.len() > 0 {
            assert(table.contains_key(second[0].hostname));
        }
        assert(first =~= second);
    } else {
        lemma_first_is_least(second, table, first[0]);
        lemma_first_is_least(first, table, second[0]);
        lemma_entry_le_antisymmetric(first[0], second[0]);
        lemma_lists_rest(first, table);
        lemma_lists_rest(second, table);
        lemma_sorted_entries_unique(
            table.remove(first[0].hostname),
            first.drop_first(),
            second.drop_first(),
        );
        assert(first =~= seq![first[0]] + first.drop_first());
        assert(second =~= seq![second[0]] + second.drop_first());
    }
}

/// Where an entry with this hostname belongs in `entries`: before the first
/// entry whose hostname comes after it.
spec fn place_of(entries: Seq<Entry>, hostname: Seq<char>) -> int
    decreases entries.len(),
{
    if entries.len() == 0 || str_lt(hostname, entries[0].hostname) {
        0
    } else {
        1 + place_of(entries.drop_first(), hostname)
    }
}

proof fn lemma_place_of(entries: Seq<Entry>, hostname: Seq<char>)
    ensures
        0 <= place_of(entries, hostname) <= entries.len(),
        place_of(entries, hostname) < entries.len() ==> str_lt(
            hostname,
            entries[place_of(entries, hostname)].hostname,
        ),
        forall|i: int|
            0 <= i < place_of(entries, hostname) ==> !str_lt(
                hostname,
                (#[trigger] entries[i]).hostname,
            ),
    decreases entries.len(),
{
    if entries.len() > 0 && !str_lt(hostname, entries[0].hostname) {
        let rest = entries.drop_first();
        lemma_place_of(rest, hostname);
        assert forall|i: int| 0 <= i < place_of(entries, hostname) implies !str_lt(
            hostname,
            (#[trigger] entries[i]).hostname,
        ) by {
            if i > 0 {
                assert(rest[i - 1] == entries[i]);
            }
        }
    }
}

/// An ascending list takes one more entry, with a hostname that it lacks, and
/// stays ascending.
proof fn lemma_lists_one_more(entries: Seq<Entry>, table: Table, entry: Entry)
    requires
        lists(entries, table),
        ascending(entries),
        !table.contains_key(entry.hostname),
    ensures
        lists(
            entries.insert(place_of(entries, entry.hostname), entry),
            table.insert(entry.hostname, entry.address),
        ),
        ascending(entries.insert(place_of(entries, entry.hostname), entry)),
{
    let at = place_of(entries, entry.hostname);
    lemma_place_of(entries, entry.hostname);
    let longer = entries.insert(at, entry);
    let more = table.insert(entry.hostname, entry.address);
    assert(longer.len() == entries.len() + 1);
    assert(longer[at] == entry);
    assert forall|i: int| 0 <= i < longer.len() && i != at implies #[trigger] longer[i]
        == entries[if i < at {
        i
    } else {
        i - 1
    }] by {}
    assert forall|i: int| 0 <= i < entries.len() implies (#[trigger] entries[i]).hostname
        != entry.hostname by {
        assert(table.contains_pair(entries[i].hostname, entries[i].address));
    }
    assert forall|i: int, j: int| 0 <= i < j < longer.len() implies longer[i].hostname
        != longer[j].hostname && entry_le(longer[i], longer[j]) by {
        if i == at {
            let k = j - 1;
            assert(longer[j] == entries[k]);
            if k > at {
                assert(entry_le(entries[at], entries[k]));
                if entries[at] != entries[k] {
                    lemma_str_lt_transitive(
                        entry.hostname,
                        entries[at].hostname,
                        entries[k].hostname,
                    );
                }
            }
        } else if j == at {
            assert(longer[i] == entries[i]);
            lemma_str_lt_total(entries[i].hostname, entry.hostname);
        } else {
            let k = if i < at {
                i
            } else {
                i - 1
            };
            let l = if j < at {
                j
            } else {
                j - 1
            };
            assert(longer[i] == entries[k] && longer[j] == entries[l]);
            assert(k < l);
        }
    }
    assert forall|i: int| 0 <= i < longer.len() implies more.contains_pair(
        (#[trigger] longer[i]).hostname,
        longer[i].address,
    ) by {
        if i != at {
            let k = if i < at {
                i
            } else {
                i - 1
            };
            assert(longer[i] == entries[k]);
            assert(table.contains_pair(entries[k].hostname, entries[k].address));
        }
    }
    assert forall|hostname: Seq<char>| #[trigger] more.contains_key(hostname) implies exists|
        i: int,
    |
        0 <= i < longer.len() && (#[trigger] longer[i]).hostname == hostname by {
        if hostname == entry.hostname {
            assert(longer[at].hostname == hostname);
        } else {
            assert(table.contains_key(hostname));
            let k = choose|k: int|
                0 <= k < entries.len() && (#[trigger] entries[k]).hostname == hostname;
            let i = if k < at {
                k
            } else {
                k + 1
            };
            assert(longer[i] == entries[k]);
        }
    }
}

/// Every finite table has an ascending list of its entries.
proof fn lemma_sorted_entries_exist(table: Table)
    requires
        table.dom().finite(),
    ensures
        exists|entries: Seq<Entry>| lists(entries, table) && ascending(entries),
    decreases table.dom().len(),
{
    if table.dom().len() == 0 {
        let none = Seq::<Entry>::empty();
        assert forall|hostname: Seq<char>| !table.contains_key(hostname) by {
            if table.dom().contains(hostname) {
                assert(table.dom().len() > 0);
            }
        }
        assert(lists(none, table) && ascending(none));
    } else {
        let hostname = table.dom().choose();
        let less = table.remove(hostname);
        lemma_sorted_entries_exist(less);
        let entries = choose|entries: Seq<Entry>| lists(entries, less) && ascending(entries);
        let entry = Entry { hostname, address: table[hostname] };
        lemma_lists_one_more(entries, less, entry);
        assert(less.insert(hostname, table[hostname]) =~= table);
    }
}

/// The sorted entries of a finite table list it, in ascending order.
pub proof fn lemma_sorted_entries(table: Table)
    requires
        table.dom().finite(),
    ensures
        lists(sorted_entries(table), table),
        ascending(sorted_entries(table)),
{
    lemma_sorted_entries_exist(table);
}

} // verus!
