//! Writing a table out: its entries in ascending order, and the text they make.

use crate::grammar::{joined, Entry, Table};
use crate::listing::{
    ascending, entries_of, lemma_sorted_entries_unique, lines_of, lists, rendered, sorted_entries,
};
use crate::table::Hosts;
use iter_tools::Itertools;
use vstd::prelude::*;
use vstd::string::StringExecFns;

verus! {

/// `Itertools::sorted`, on pairs of strings. It hands back the same pairs, each as
/// often as it came, in ascending order: pairs are compared by their first string
/// and then by their second, strings character by character. Believed, not proved.
#[verifier::external_body]
fn sorted(pairs: Vec<(String, String)>) -> (sorted: Vec<(String, String)>)
    ensures
        entries_of(sorted@).to_multiset() == entries_of(pairs@).to_multiset(),
        ascending(entries_of(sorted@)),
{
    pairs.into_iter().sorted().collect()
}

impl Hosts {
    /// The entries of the table, each a hostname and its address, in ascending order.
    pub fn entries(&self) -> (pairs: Vec<(String, String)>)
        ensures
            entries_of(pairs@) == sorted_entries(self@),
            lists(entries_of(pairs@), self@),
            ascending(entries_of(pairs@)),
    {
        let listed = self.listed();
        let pairs = sorted(listed);
        proof {
            lemma_lists_rearranged(entries_of(listed@), entries_of(pairs@), self@);
            lemma_sorted_entries_unique(self@, entries_of(pairs@), sorted_entries(self@));
        }
        pairs
    }

    /// The table as text: a line for each entry, address first, in ascending order
    /// of the entries, with a line feed between two lines and none at the end.
    pub fn to_string(&self) -> (text: String)
        ensures
            text@ == rendered(self@),
    {
        let entries = self.entries();
        let ghost all = lines_of(entries_of(entries@));
        let mut text = String::new();
        let mut i: usize = 0;
        while i < entries.len()
            invariant
                i <= entries.len(),
                all == lines_of(entries_of(entries@)),
                text@ == joined(all.take(i as int)),
            decreases entries.len() - i,
        {
            let ghost before = text@;
            if i > 0 {
                text.push('\n');
            }
            text.append(entries[i].1.as_str());
            text.push(' ');
            text.append(entries[i].0.as_str());
            proof {
                let line = all[i as int];
                assert(line == entries[i as int].1@ + seq![' '] + entries[i as int].0@);
                assert(all.take(i + 1).drop_last() =~= all.take(i as int));
                assert(all.take(i + 1).last() == line);
                if i > 0 {
                    assert(text@ =~= before + seq!['\n'] + line);
                } else {
                    assert(text@ =~= line);
                }
            }
            i += 1;
        }
        proof {
            assert(all.take(i as int) =~= all);
        }
        text
    }
}

/// A list of a table, rearranged, still lists it.
proof fn lemma_lists_rearranged(before: Seq<Entry>, after: Seq<Entry>, table: Table)
    requires
        lists(before, table),
        before.to_multiset() == after.to_multiset(),
    ensures
        lists(after, table),
{
    before.to_multiset_ensures();
    after.to_multiset_ensures();
    assert(before.no_duplicates());
    before.lemma_multiset_has_no_duplicates();
    after.lemma_multiset_has_no_duplicates_conv();
    assert forall|i: int| 0 <= i < after.len() implies table.contains_pair(
        (#[trigger] after[i]).hostname,
        after[i].address,
    ) by {
        assert(after.contains(after[i]));
        assert(after.to_multiset().count(after[i]) > 0);
        assert(before.to_multiset().count(after[i]) > 0);
        assert(before.contains(after[i]));
    }
    assert forall|i: int, j: int| 0 <= i < j < after.len() implies after[i].hostname
        != after[j].hostname by {
        assert(table.contains_pair(after[i].hostname, after[i].address));
        assert(table.contains_pair(after[j].hostname, after[j].address));
    }
    assert forall|hostname: Seq<char>| #[trigger] table.contains_key(hostname) implies exists|
        i: int,
    |
        0 <= i < after.len() && (#[trigger] after[i]).hostname == hostname by {
        let k = choose|k: int| 0 <= k < before.len() && (#[trigger] before[k]).hostname == hostname;
        assert(before.contains(before[k]));
        assert(before.to_multiset().count(before[k]) > 0);
        assert(after.to_multiset().count(before[k]) > 0);
        assert(after.contains(before[k]));
    }
}

} // verus!
