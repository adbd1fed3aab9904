//! The table itself: a finite map from hostname to address.

use crate::grammar::{Entry, Table};
use crate::listing::{entries_of, lists};
use vstd::hash_map::StringHashMap;
use vstd::prelude::*;

verus! {

/// A hosts table. Each hostname has at most one address.
pub struct Hosts {
    /// Address of each hostname.
    addresses: StringHashMap<String>,
    /// Every hostname of `addresses`, once. The map has no way to walk its keys.
    names: Vec<String>,
}

/// The hostnames that a vector of strings spells out.
spec fn views_of(names: Seq<String>) -> Seq<Seq<char>> {
    names.map_values(|name: String| name@)
}

/// What a map of strings holds, each string as its characters.
spec fn views_by_name(addresses: Map<Seq<char>, String>) -> Table {
    addresses.map_values(|address: String| address@)
}

/// `names` holds each key of `addresses` exactly once, and nothing else.
spec fn lists_keys(names: Seq<String>, addresses: Map<Seq<char>, String>) -> bool {
    &&& views_of(names).no_duplicates()
    &&& forall|name: Seq<char>|
        addresses.contains_key(name) <==> #[trigger] views_of(names).contains(name)
}

impl View for Hosts {
    type V = Table;

    closed spec fn view(&self) -> Table {
        views_by_name(self.addresses@)
    }
}

impl Hosts {
    #[verifier::type_invariant]
    spec fn names_list_the_keys(self) -> bool {
        lists_keys(self.names@, self.addresses@)
    }

    /// An empty table.
    pub fn new() -> (hosts: Self)
        ensures
            hosts@ == Table::empty(),
    {
        let hosts = Hosts { addresses: StringHashMap::new(), names: Vec::new() };
        assert(hosts@ =~= Table::empty());
        hosts
    }

    /// How many hostnames the table holds.
    pub fn len(&self) -> (n: usize)
        ensures
            self@.dom().finite(),
            n == self@.len(),
    {
        proof {
            use_type_invariant(self);
            lemma_keys_counted(self.names@, self.addresses@);
            assert(self@.dom() =~= self.addresses@.dom());
        }
        self.names.len()
    }

    /// The address of `hostname`, where the table holds that hostname.
    pub fn get(&self, hostname: &str) -> (address: Option<&String>)
        ensures
            match address {
                Some(address) => self@.contains_key(hostname@) && address@ == self@[hostname@],
                None => !self@.contains_key(hostname@),
            },
    {
        self.addresses.get(hostname)
    }

    /// Sets the address of `hostname`, in place of the one that it had, if any.
    pub fn insert(&mut self, hostname: String, address: String)
        ensures
            final(self)@ == old(self)@.insert(hostname@, address@),
    {
        let mut taken = Hosts::new();
        std::mem::swap(self, &mut taken);
        proof {
            use_type_invariant(&taken);
        }
        let Hosts { addresses, names } = taken;
        let mut addresses = addresses;
        let mut names = names;
        let ghost addresses_before = addresses@;
        if !addresses.contains_key(hostname.as_str()) {
            proof {
                lemma_lists_new_key(names@, addresses_before, hostname, address);
            }
            names.push(hostname.clone());
        } else {
            proof {
                lemma_lists_old_key(names@, addresses_before, hostname@, address);
            }
        }
        addresses.insert(hostname, address);
        proof {
            assert(views_by_name(addresses@) =~= views_by_name(addresses_before).insert(
                hostname@,
                address@,
            ));
        }
        *self = Hosts { addresses, names };
    }

    /// Takes over every entry of `other`. Where both tables hold a hostname, the
    /// address from `other` stays.
    pub fn extend(&mut self, other: Hosts)
        ensures
            final(self)@ == old(self)@.union_prefer_right(other@),
    {
        let mut taken = Hosts::new();
        std::mem::swap(self, &mut taken);
        proof {
            use_type_invariant(&taken);
            use_type_invariant(&other);
        }
        let Hosts { addresses, names } = taken;
        let Hosts { addresses: other_addresses, names: other_names } = other;
        let mut addresses = addresses;
        let mut names = names;
        let ghost names_before = names@;
        for name in it: other_names
            invariant
                it.seq() == other_names@,
                lists_keys(names_before, addresses@),
                lists_keys(other_names@, other_addresses@),
                views_of(names@).no_duplicates(),
                forall|key: Seq<char>| #[trigger]
                    views_of(names@).contains(key) <==> addresses@.contains_key(key) || views_of(
                        other_names@.take(it.index() as int),
                    ).contains(key),
        {
            let ghost seen = other_names@.take(it.index() as int);
            let ghost names_then = names@;
            proof {
                assert(other_names@.take(it.index() + 1) =~= seen.push(name));
                assert(views_of(seen.push(name)) =~= views_of(seen).push(name@));
            }
            if !addresses.contains_key(name.as_str()) {
                proof {
                    if views_of(seen).contains(name@) {
                        let k = choose|k: int|
                            0 <= k < views_of(seen).len() && views_of(seen)[k] == name@;
                        assert(views_of(other_names@)[k] == name@);
                        assert(views_of(other_names@)[it.index() as int] == name@);
                    }
                    assert(!views_of(names_then).contains(name@));
                    assert(views_of(names_then.push(name)) =~= views_of(names_then).push(name@));
                }
                names.push(name);
            }
            proof {
                assert forall|key: Seq<char>| #[trigger]
                    views_of(names@).contains(key) <==> addresses@.contains_key(key) || views_of(
                        seen,
                    ).push(name@).contains(key) by {
                    lemma_push_contains(views_of(seen), name@, key);
                    if names@.len() > names_then.len() {
                        lemma_push_contains(views_of(names_then), name@, key);
                    }
                }
            }
        }
        let ghost addresses_before = addresses@;
        addresses.union_prefer_right(other_addresses);
        proof {
            assert(other_names@.take(other_names@.len() as int) =~= other_names@);
            assert(views_by_name(addresses@) =~= views_by_name(addresses_before).union_prefer_right(
                views_by_name(other_addresses@),
            ));
            assert forall|key: Seq<char>|
                addresses@.contains_key(key) <==> #[trigger] views_of(names@).contains(key) by {
                assert(other_addresses@.contains_key(key) <==> views_of(other_names@).contains(
                    key,
                ));
            }
        }
        *self = Hosts { addresses, names };
    }

    /// Every entry of the table, once, in no particular order.
    pub(crate) fn listed(&self) -> (pairs: Vec<(String, String)>)
        ensures
            lists(entries_of(pairs@), self@),
    {
        proof {
            use_type_invariant(self);
        }
        let mut pairs: Vec<(String, String)> = Vec::new();
        let mut i: usize = 0;
        while i < self.names.len()
            invariant
                i <= self.names.len(),
                lists_keys(self.names@, self.addresses@),
                pairs.len() == i,
                forall|k: int|
                    0 <= k < i ==> (#[trigger] entries_of(pairs@)[k]) == (Entry {
                        hostname: self.names[k]@,
                        address: self.addresses@[self.names[k]@]@,
                    }),
            decreases self.names.len() - i,
        {
            let name = &self.names[i];
            proof {
                assert(views_of(self.names@)[i as int] == name@);
                assert(views_of(self.names@).contains(name@));
            }
            let address = self.addresses.get(name.as_str()).unwrap();
            let ghost pairs_then = pairs@;
            pairs.push((name.clone(), address.clone()));
            proof {
                assert forall|k: int| 0 <= k < i + 1 implies (#[trigger] entries_of(pairs@)[k])
                    == (Entry {
                    hostname: self.names[k]@,
                    address: self.addresses@[self.names[k]@]@,
                }) by {
                    if k < i {
                        assert(entries_of(pairs@)[k] == entries_of(pairs_then)[k]);
                    }
                }
            }
            i += 1;
        }
        proof {
            let entries = entries_of(pairs@);
            assert forall|k: int, l: int| 0 <= k < l < entries.len() implies entries[k].hostname
                != entries[l].hostname by {
                assert(views_of(self.names@)[k] == entries[k].hostname);
                assert(views_of(self.names@)[l] == entries[l].hostname);
            }
            assert forall|k: int| 0 <= k < entries.len() implies self@.contains_pair(
                (#[trigger] entries[k]).hostname,
                entries[k].address,
            ) by {
                assert(views_of(self.names@)[k] == entries[k].hostname);
                assert(views_of(self.names@).contains(entries[k].hostname));
            }
            assert forall|hostname: Seq<char>| #[trigger]
                self@.contains_key(hostname) implies exists|k: int|
                0 <= k < entries.len() && (#[trigger] entries[k]).hostname == hostname by {
                assert(views_of(self.names@).contains(hostname));
                let k = choose|k: int|
                    0 <= k < views_of(self.names@).len() && views_of(self.names@)[k] == hostname;
                assert(entries[k].hostname == hostname);
            }
        }
        pairs
    }
}

impl Default for Hosts {
    /// An empty table.
    fn default() -> (hosts: Self)
        ensures
            hosts@ == Table::empty(),
    {
        Hosts::new()
    }
}

/// What `s.push(last)` holds: what `s` holds, and `last`.
proof fn lemma_push_contains(s: Seq<Seq<char>>, last: Seq<char>, key: Seq<char>)
    ensures
        s.push(last).contains(key) <==> s.contains(key) || key == last,
{
    if s.contains(key) {
        let k = choose|k: int| 0 <= k < s.len() && s[k] == key;
        assert(s.push(last)[k] == key);
    }
    if key == last {
        assert(s.push(last)[s.len() as int] == key);
    }
    if s.push(last).contains(key) && key != last {
        let k = choose|k: int| 0 <= k < s.push(last).len() && s.push(last)[k] == key;
        assert(s[k] == key);
    }
}

/// A map has as many keys as a list of them is long.
proof fn lemma_keys_counted(names: Seq<String>, addresses: Map<Seq<char>, String>)
    requires
        lists_keys(names, addresses),
    ensures
        addresses.dom().finite(),
        addresses.dom().len() == names.len(),
{
    views_of(names).unique_seq_to_set();
    assert(views_of(names).to_set() =~= addresses.dom());
}

/// A key that the map lacks can be appended to the list of its keys.
proof fn lemma_lists_new_key(
    names: Seq<String>,
    addresses: Map<Seq<char>, String>,
    name: String,
    address: String,
)
    requires
        lists_keys(names, addresses),
        !addresses.contains_key(name@),
    ensures
        lists_keys(names.push(name), addresses.insert(name@, address)),
{
    let longer = names.push(name);
    assert(views_of(longer) =~= views_of(names).push(name@));
    assert(!views_of(names).contains(name@));
    assert forall|other: Seq<char>|
        addresses.insert(name@, address).contains_key(other) <==> #[trigger] views_of(
            longer,
        ).contains(other) by {
        lemma_push_contains(views_of(names), name@, other);
    }
}

/// Giving a key of the map another value leaves the list of its keys in order.
proof fn lemma_lists_old_key(
    names: Seq<String>,
    addresses: Map<Seq<char>, String>,
    name: Seq<char>,
    address: String,
)
    requires
        lists_keys(names, addresses),
        addresses.contains_key(name),
    ensures
        lists_keys(names, addresses.insert(name, address)),
{
    assert forall|other: Seq<char>|
        addresses.insert(name, address).contains_key(other) <==> #[trigger] views_of(
            names,
        ).contains(other) by {
        assert(addresses.contains_key(other) <==> views_of(names).contains(other));
    }
}

} // verus!
