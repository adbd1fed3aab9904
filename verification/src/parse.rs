//! Reading a table from text.

use crate::grammar::{
    add_line, add_lines, find, lemma_add_lines_first, lemma_find_at, lemma_lines_first,
    lemma_lines_last, lines, parsed, without_cr,
};
use crate::strings::string_between;
use crate::table::Hosts;
use vstd::prelude::*;

verus! {

impl vstd::std_specs::convert::FromSpecImpl<&str> for Hosts {
    open spec fn obeys_from_spec() -> bool {
        false
    }

    open spec fn from_spec(text: &str) -> Hosts {
        arbitrary()
    }
}

impl From<&str> for Hosts {
    /// Reads the table that `text` describes. Every text describes one: lines that
    /// are no entries are passed over.
    fn from(text: &str) -> (hosts: Hosts)
        ensures
            hosts@ == parsed(text@),
    {
        let mut hosts = Hosts::new();
        let mut line: Vec<char> = Vec::new();
        let ghost mut unread: Seq<char> = text@;
        for c in it: text.chars()
            invariant
                it.seq() == text@,
                unread == it.seq().skip(it.index() as int),
                !line@.contains('\n'),
                add_lines(hosts@, lines(line@ + unread)) == parsed(text@),
        {
            let ghost unread_before = unread;
            let ghost rest = unread.drop_first();
            proof {
                assert(unread[0] == c);
                assert(unread =~= seq![c] + rest);
                assert(rest =~= it.seq().skip(it.index() + 1));
                unread = rest;
            }
            if c == '\n' {
                let ghost whole = line@;
                proof {
                    assert(line@ + unread_before =~= line@ + seq!['\n'] + rest);
                    lemma_lines_first(line@, rest);
                    lemma_add_lines_first(hosts@, without_cr(whole), lines(rest));
                }
                let n = line.len();
                if n > 0 && line[n - 1] == '\r' {
                    line.pop();
                }
                assert(line@ == without_cr(whole));
                read_line(&mut hosts, &line);
                line.clear();
                assert(line@ + rest =~= rest);
            } else {
                proof {
                    assert(line@ + unread_before =~= line@.push(c) + rest);
                    assert forall|i: int| 0 <= i < line@.push(c).len() implies line@.push(c)[i]
                        != '\n' by {
                        if i < line@.len() {
                            assert(line@.contains(line@[i]));
                        }
                    }
                }
                line.push(c);
            }
        }
        proof {
            assert(line@ + unread =~= line@);
            lemma_lines_last(line@);
            lemma_add_lines_first(hosts@, line@, Seq::empty());
        }
        if line.len() > 0 {
            read_line(&mut hosts, &line);
        }
        hosts
    }
}

/// Adds to `hosts` what `line` says.
fn read_line(hosts: &mut Hosts, line: &Vec<char>)
    ensures
        final(hosts)@ == add_line(old(hosts)@, line@),
{
    if line.len() > 0 && line[0] == '#' {
        return ;
    }
    let space = position(line, ' ');
    if space < line.len() {
        let address = string_between(line, 0, space);
        let hostname = string_between(line, space + 1, line.len());
        proof {
            assert(line@.subrange(0, space as int) =~= line@.take(space as int));
            assert(line@.subrange(space + 1, line.len() as int) =~= line@.skip(space + 1));
        }
        hosts.insert(hostname, address);
    }
}

/// Where `c` first stands in `line`, or the length of `line`.
fn position(line: &Vec<char>, c: char) -> (at: usize)
    ensures
        at == find(line@, c),
{
    let mut at: usize = 0;
    while at < line.len() && line[at] != c
        invariant
            at <= line.len(),
            forall|i: int| 0 <= i < at ==> line[i] != c,
        decreases line.len() - at,
    {
        at += 1;
    }
    proof {
        lemma_find_at(line@, c, at as int);
    }
    at
}

} // verus!
