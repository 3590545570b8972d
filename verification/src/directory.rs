//! The route directory: the mapping from host name to route entry.
//!
//! The directory is the single source of truth shared by discovery (the only
//! writer), the health monitor and the dispatch path. An update always swaps
//! a whole entry under one host key, so a reader sees either the old or the
//! new entry, never a partially built one; the surrounding process wraps the
//! directory in its lock of choice to share it between tasks.

use vstd::prelude::*;

verus! {

use crate::route::EntryModel;
use crate::route::RouteEntry;

/// The mapping a list of entries denotes, keyed by host.
pub open spec fn entries_map(s: Seq<RouteEntry>) -> Map<Seq<char>, EntryModel>
    decreases s.len(),
{
    if s.len() == 0 {
        Map::empty()
    } else {
        entries_map(s.drop_last()).insert(s.last().host@, s.last()@)
    }
}

pub open spec fn hosts_unique(s: Seq<RouteEntry>) -> bool {
    forall|i: int, j: int|
        0 <= i < j < s.len() ==> (#[trigger] s[i]).host@ != (#[trigger] s[j]).host@
}

/// Host name to route entry, each host present once.
pub struct RouteDirectory {
    pub entries: Vec<RouteEntry>,
}

impl View for RouteDirectory {
    type V = Map<Seq<char>, EntryModel>;

    open spec fn view(&self) -> Map<Seq<char>, EntryModel> {
        entries_map(self.entries@)
    }
}

/// With unique hosts, the denoted mapping holds exactly the listed entries.
pub proof fn lemma_entries_map(s: Seq<RouteEntry>)
    requires
        hosts_unique(s),
    ensures
        forall|h: Seq<char>|
            #[trigger] entries_map(s).contains_key(h) <==> exists|i: int|
                0 <= i < s.len() && (#[trigger] s[i]).host@ == h,
        forall|i: int| 0 <= i < s.len() ==> entries_map(s)[(#[trigger] s[i]).host@] == s[i]@,
    decreases s.len(),
{
    if s.len() == 0 {
    } else {
        let t = s.drop_last();
        assert(forall|i: int| 0 <= i < t.len() ==> t[i] == s[i]);
        lemma_entries_map(t);
        assert forall|h: Seq<char>| #[trigger] entries_map(s).contains_key(h) implies exists|
            i: int,
        | 0 <= i < s.len() && (#[trigger] s[i]).host@ == h by {
            if h == s.last().host@ {
                assert(s[s.len() - 1].host@ == h);
            } else {
                assert(entries_map(s) == entries_map(t).insert(s.last().host@, s.last()@));
                assert(entries_map(t).contains_key(h));
                let i = choose|i: int| 0 <= i < t.len() && (#[trigger] t[i]).host@ == h;
                assert(s[i].host@ == h);
            }
        }
        assert forall|h: Seq<char>|
            exists|i: int| 0 <= i < s.len() && (#[trigger] s[i]).host@ == h implies entries_map(
            s,
        ).contains_key(h) by {
            let i = choose|i: int| 0 <= i < s.len() && (#[trigger] s[i]).host@ == h;
            if i < s.len() - 1 {
                assert(t[i].host@ == h);
            }
        }
        assert forall|i: int| 0 <= i < s.len() implies entries_map(s)[(#[trigger] s[i]).host@]
            == s[i]@ by {
            if i < s.len() - 1 {
                assert(s[i].host@ != s.last().host@);
                assert(t[i].host@ == s[i].host@);
            }
        }
    }
}

proof fn lemma_entries_map_update(s: Seq<RouteEntry>, i: int, e: RouteEntry)
    requires
        hosts_unique(s),
        0 <= i < s.len(),
        s[i].host@ == e.host@,
    ensures
        entries_map(s.update(i, e)) == entries_map(s).insert(e.host@, e@),
        hosts_unique(s.update(i, e)),
    decreases s.len(),
{
    assert(forall|k: int|
        0 <= k < s.len() ==> (#[trigger] s.update(i, e)[k]).host@ == s[k].host@);
    if i == s.len() - 1 {
        assert(s.update(i, e).drop_last() =~= s.drop_last());
        assert(s.update(i, e).last() == e);
        assert(entries_map(s.update(i, e)) =~= entries_map(s).insert(e.host@, e@));
    } else {
        let t = s.drop_last();
        assert(forall|k: int| 0 <= k < t.len() ==> t[k] == s[k]);
        lemma_entries_map_update(t, i, e);
        assert(s.update(i, e).drop_last() =~= t.update(i, e));
        assert(s.update(i, e).last() == s.last());
        assert(s.last().host@ != e.host@);
        assert(entries_map(s.update(i, e)) =~= entries_map(s).insert(e.host@, e@));
    }
}

impl RouteDirectory {
    /// Well-formed: each host appears once and every entry is well-formed.
    pub open spec fn wf(self) -> bool {
        &&& hosts_unique(self.entries@)
        &&& forall|i: int| 0 <= i < self.entries@.len() ==> (#[trigger] self.entries@[i]).wf()
    }

    /// An empty directory.
    pub fn new() -> (r: RouteDirectory)
        ensures
            r.wf(),
            r@ == Map::<Seq<char>, EntryModel>::empty(),
    {
        RouteDirectory { entries: Vec::new() }
    }

    /// Looks the host up; the dispatch path's read interface.
    #[verifier::loop_isolation(false)]
    pub fn get(&self, host: &String) -> (r: Option<&RouteEntry>)
        requires
            self.wf(),
        ensures
            match r {
                Some(e) => self@.contains_key(host@) && e@ == self@[host@] && e.wf() && e@.host
                    == host@,
                None => !self@.contains_key(host@),
            },
    {
        proof {
            lemma_entries_map(self.entries@);
        }
        let mut i: usize = 0;
        while i < self.entries.len()
            invariant
                i <= self.entries@.len(),
                forall|k: int| 0 <= k < i ==> (#[trigger] self.entries@[k]).host@ != host@,
            decreases self.entries@.len() - i,
        {
            if self.entries[i].host == *host {
                return Some(&self.entries[i]);
            }
            i += 1;
        }
        None
    }

    /// Inserts the entry under its host, atomically replacing any entry the
    /// host already had.
    #[verifier::loop_isolation(false)]
    pub fn upsert(&mut self, entry: RouteEntry)
        requires
            old(self).wf(),
            entry.wf(),
        ensures
            final(self).wf(),
            final(self)@ == old(self)@.insert(entry.host@, entry@),
    {
        proof {
            lemma_entries_map(self.entries@);
        }
        let mut i: usize = 0;
        while i < self.entries.len()
            invariant
                i <= self.entries@.len(),
                self == old(self),
                forall|k: int| 0 <= k < i ==> (#[trigger] self.entries@[k]).host@ != entry.host@,
            decreases self.entries@.len() - i,
        {
            if self.entries[i].host == entry.host {
                proof {
                    lemma_entries_map_update(self.entries@, i as int, entry);
                }
                self.entries[i] = entry;
                return ;
            }
            i += 1;
        }
        let ghost s = self.entries@;
        self.entries.push(entry);
        proof {
            assert(self.entries@.drop_last() =~= s);
            assert(self.entries@.last() == entry);
            assert(entries_map(self.entries@) =~= entries_map(s).insert(entry.host@, entry@));
            assert(forall|k: int|
                0 <= k < s.len() ==> (#[trigger] self.entries@[k]).host@ == s[k].host@);
        }
    }

    /// A snapshot of the hosts currently routed, each once; the health
    /// monitor iterates over it without holding the directory.
    #[verifier::loop_isolation(false)]
    pub fn hosts(&self) -> (r: Vec<String>)
        requires
            self.wf(),
        ensures
            forall|i: int| 0 <= i < r@.len() ==> self@.contains_key((#[trigger] r@[i])@),
            forall|h: Seq<char>|
                #[trigger] self@.contains_key(h) ==> exists|i: int|
                    0 <= i < r@.len() && (#[trigger] r@[i])@ == h,
            forall|i: int, j: int| 0 <= i < j < r@.len() ==> (#[trigger] r@[i])@ != (#[trigger] r@[j])@,
    {
        proof {
            lemma_entries_map(self.entries@);
        }
        let mut r: Vec<String> = Vec::new();
        let mut i: usize = 0;
        while i < self.entries.len()
            invariant
                i <= self.entries@.len(),
                r@.len() == i,
                forall|k: int| 0 <= k < i ==> (#[trigger] r@[k])@ == self.entries@[k].host@,
            decreases self.entries@.len() - i,
        {
            r.push(self.entries[i].host.clone());
            i += 1;
        }
        proof {
            assert forall|h: Seq<char>| #[trigger] self@.contains_key(h) implies exists|i: int|
                0 <= i < r@.len() && (#[trigger] r@[i])@ == h by {
                let i = choose|i: int|
                    0 <= i < self.entries@.len() && (#[trigger] self.entries@[i]).host@ == h;
                assert((r@[i])@ == h);
            }
        }
        r
    }
}

} // verus!
