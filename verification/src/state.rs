//! The durable state record: a mapping from repository identifier to the last
//! version marker seen for that repository.
//!
//! The record is held as a vector of entries with pairwise distinct keys, in
//! first-insertion order. Its mathematical view is the finite map built from
//! those entries; the reconciliation engine's contracts speak of that map.

use vstd::prelude::*;
use crate::bytes::bytes_eq;
use crate::bytes::clone_bytes;

verus! {

/// One stored association: repository identifier -> last seen version marker.
#[derive(Debug)]
pub struct StateEntry {
    pub repo: Vec<u8>,
    pub marker: Vec<u8>,
}

/// Pairwise distinct keys.
pub open spec fn unique_keys(s: Seq<(Seq<u8>, Seq<u8>)>) -> bool {
    forall|i: int, j: int| 0 <= i < j < s.len() ==> s[i].0 != s[j].0
}

/// The finite map that a sequence of key/value pairs denotes; a later pair
/// wins, though a well-formed record never holds two pairs with one key.
pub open spec fn map_of(s: Seq<(Seq<u8>, Seq<u8>)>) -> Map<Seq<u8>, Seq<u8>>
    decreases s.len(),
{
    if s.len() == 0 {
        Map::empty()
    } else {
        map_of(s.drop_last()).insert(s.last().0, s.last().1)
    }
}

proof fn lemma_map_of_contains(s: Seq<(Seq<u8>, Seq<u8>)>, k: Seq<u8>)
    ensures
        map_of(s).contains_key(k) <==> exists|i: int| 0 <= i < s.len() && s[i].0 == k,
    decreases s.len(),
{
    if s.len() > 0 {
        lemma_map_of_contains(s.drop_last(), k);
        if s.last().0 == k {
            assert(s[s.len() - 1].0 == k);
        } else if map_of(s).contains_key(k) {
            let i = choose|i: int| 0 <= i < s.drop_last().len() && s.drop_last()[i].0 == k;
            assert(s[i].0 == k);
        } else if exists|i: int| 0 <= i < s.len() && s[i].0 == k {
            let i = choose|i: int| 0 <= i < s.len() && s[i].0 == k;
            assert(i < s.len() - 1);
            assert(s.drop_last()[i].0 == k);
        }
    }
}

proof fn lemma_map_of_index(s: Seq<(Seq<u8>, Seq<u8>)>, i: int)
    requires
        unique_keys(s),
        0 <= i < s.len(),
    ensures
        map_of(s).contains_key(s[i].0),
        map_of(s)[s[i].0] == s[i].1,
    decreases s.len(),
{
    if i == s.len() - 1 {
    } else {
        assert(unique_keys(s.drop_last())) by {
            assert(forall|p: int, q: int|
                0 <= p < q < s.drop_last().len() ==> s.drop_last()[p].0 != s.drop_last()[q].0);
        }
        assert(s.drop_last()[i] == s[i]);
        lemma_map_of_index(s.drop_last(), i);
        assert(s[i].0 != s.last().0);
    }
}

/// The state record. Invariant: at most one entry per repository identifier.
#[derive(Debug)]
pub struct StateRecord {
    entries: Vec<StateEntry>,
}

impl View for StateRecord {
    type V = Map<Seq<u8>, Seq<u8>>;

    open spec fn view(&self) -> Map<Seq<u8>, Seq<u8>> {
        map_of(self.kv())
    }
}

impl StateRecord {
    /// The entries as stored, in first-insertion order.
    pub closed spec fn kv(self) -> Seq<(Seq<u8>, Seq<u8>)> {
        self.entries@.map_values(|e: StateEntry| (e.repo@, e.marker@))
    }

    /// Well-formedness: no repository identifier occurs twice.
    pub open spec fn wf(self) -> bool {
        unique_keys(self.kv())
    }

    /// An empty record: no repository has been observed.
    pub fn new() -> (r: StateRecord)
        ensures
            r.wf(),
            r@ == Map::<Seq<u8>, Seq<u8>>::empty(),
            r.kv() == Seq::<(Seq<u8>, Seq<u8>)>::empty(),
    {
        let r = StateRecord { entries: Vec::new() };
        proof {
            assert(r.kv() =~= Seq::<(Seq<u8>, Seq<u8>)>::empty());
        }
        r
    }

    /// Builds a record from entries; refuses a duplicated key.
    pub fn from_entries(entries: Vec<StateEntry>) -> (r: Option<StateRecord>)
        ensures
            match r {
                Some(st) => st.wf() && st.kv() == entries.deep_view_entries()
                    && unique_keys(entries.deep_view_entries()),
                None => !unique_keys(entries.deep_view_entries()),
            },
    {
        let ghost kv = entries.deep_view_entries();
        let mut i: usize = 0;
        while i < entries.len()
            invariant
                i <= entries.len(),
                kv == entries.deep_view_entries(),
                kv.len() == entries.len(),
                forall|p: int, q: int| 0 <= p < q < i ==> kv[p].0 != kv[q].0,
            decreases entries.len() - i,
        {
            let mut j: usize = 0;
            while j < i
                invariant
                    j <= i,
                    i < entries.len(),
                    kv == entries.deep_view_entries(),
                    kv.len() == entries.len(),
                    forall|q: int| 0 <= q < j ==> kv[q].0 != kv[i as int].0,
                decreases i - j,
            {
                if bytes_eq(&entries[j].repo, &entries[i].repo) {
                    assert(kv[j as int].0 == kv[i as int].0);
                    return None;
                }
                j += 1;
            }
            i += 1;
        }
        let r = StateRecord { entries };
        proof {
            assert(r.kv() == kv);
        }
        Some(r)
    }

    /// The marker last seen for `repo`, or `None` if never observed.
    pub fn get(&self, repo: &Vec<u8>) -> (r: Option<Vec<u8>>)
        requires
            self.wf(),
        ensures
            match r {
                Some(m) => self@.contains_key(repo@) && self@[repo@] == m@,
                None => !self@.contains_key(repo@),
            },
    {
        let mut i: usize = 0;
        while i < self.entries.len()
            invariant
                self.wf(),
                i <= self.entries.len(),
                self.kv().len() == self.entries.len(),
                forall|j: int| 0 <= j < i ==> self.kv()[j].0 != repo@,
            decreases self.entries.len() - i,
        {
            if bytes_eq(&self.entries[i].repo, repo) {
                assert(self.kv()[i as int].0 == repo@);
                proof {
                    lemma_map_of_index(self.kv(), i as int);
                }
                return Some(clone_bytes(&self.entries[i].marker));
            }
            assert(self.kv()[i as int].0 != repo@);
            i += 1;
        }
        proof {
            lemma_map_of_contains(self.kv(), repo@);
        }
        None
    }

    /// Inserts or updates the marker for `repo`. Never removes an entry: the
    /// map after the call is the map before with `repo` bound to `marker`.
    pub fn set(&mut self, repo: &Vec<u8>, marker: &Vec<u8>)
        requires
            old(self).wf(),
        ensures
            final(self).wf(),
            final(self)@ == old(self)@.insert(repo@, marker@),
            old(self)@.dom().subset_of(final(self)@.dom()),
    {
        let ghost kv0 = self.kv();
        let mut i: usize = 0;
        while i < self.entries.len()
            invariant
                self.wf(),
                self.kv() == kv0,
                kv0 == old(self).kv(),
                i <= self.entries.len(),
                self.kv().len() == self.entries.len(),
                forall|j: int| 0 <= j < i ==> self.kv()[j].0 != repo@,
            decreases self.entries.len() - i,
        {
            if bytes_eq(&self.entries[i].repo, repo) {
                let ghost idx = i as int;
                assert(kv0[idx].0 == repo@);
                let m = clone_bytes(marker);
                let rkey = clone_bytes(repo);
                self.entries.set(i, StateEntry { repo: rkey, marker: m });
                proof {
                    assert(self.kv() =~= kv0.update(idx, (repo@, marker@)));
                    lemma_update_keeps_map(kv0, idx, marker@);
                    assert((kv0[idx].0, marker@) == (repo@, marker@));
                    assert(kv0.update(idx, (kv0[idx].0, marker@)) == self.kv());
                    assert(map_of(self.kv()) == map_of(kv0).insert(repo@, marker@));
                    assert(kv0 == old(self).kv());
                    assert(self@ == old(self)@.insert(repo@, marker@));
                    assert(self@.dom() =~= old(self)@.dom().insert(repo@));
                }
                return;
            }
            assert(self.kv()[i as int].0 != repo@);
            i += 1;
        }
        let m = clone_bytes(marker);
        let rkey = clone_bytes(repo);
        self.entries.push(StateEntry { repo: rkey, marker: m });
        proof {
            assert(self.kv() =~= kv0.push((repo@, marker@)));
            assert(self.kv().drop_last() =~= kv0);
            assert(forall|j: int| 0 <= j < kv0.len() ==> self.kv()[j] == kv0[j]);
            assert(self.wf());
        }
    }

    /// How many repositories have an entry.
    pub fn len(&self) -> (r: usize)
        ensures
            r == self.kv().len(),
    {
        self.entries.len()
    }

    /// The entries as plain pairs, in stored order: what the codec lays out.
    pub fn entries_out(&self) -> (r: Vec<StateEntry>)
        ensures
            r.deep_view_entries() == self.kv(),
    {
        let mut out: Vec<StateEntry> = Vec::new();
        let mut i: usize = 0;
        while i < self.entries.len()
            invariant
                i <= self.entries.len(),
                self.kv().len() == self.entries.len(),
                out.deep_view_entries().len() == i,
                forall|j: int| 0 <= j < i ==> out.deep_view_entries()[j] == self.kv()[j],
            decreases self.entries.len() - i,
        {
            let e = StateEntry {
                repo: clone_bytes(&self.entries[i].repo),
                marker: clone_bytes(&self.entries[i].marker),
            };
            out.push(e);
            i += 1;
        }
        proof {
            assert(out.deep_view_entries() =~= self.kv());
        }
        out
    }
}

/// The pairs that a vector of entries denotes.
pub trait EntrySeqView {
    spec fn deep_view_entries(&self) -> Seq<(Seq<u8>, Seq<u8>)>;
}

impl EntrySeqView for Vec<StateEntry> {
    open spec fn deep_view_entries(&self) -> Seq<(Seq<u8>, Seq<u8>)> {
        self@.map_values(|e: StateEntry| (e.repo@, e.marker@))
    }
}

proof fn lemma_update_keeps_map(s: Seq<(Seq<u8>, Seq<u8>)>, i: int, v: Seq<u8>)
    requires
        unique_keys(s),
        0 <= i < s.len(),
    ensures
        unique_keys(s.update(i, (s[i].0, v))),
        map_of(s.update(i, (s[i].0, v))) == map_of(s).insert(s[i].0, v),
    decreases s.len(),
{
    let t = s.update(i, (s[i].0, v));
    assert(forall|p: int| 0 <= p < s.len() ==> t[p].0 == s[p].0);
    assert(unique_keys(t));
    if i == s.len() - 1 {
        assert(t.drop_last() =~= s.drop_last());
        assert(t.last() == (s[i].0, v));
        assert(map_of(t) == map_of(s.drop_last()).insert(s[i].0, v));
        assert(map_of(s) == map_of(s.drop_last()).insert(s.last().0, s.last().1));
        assert(map_of(s).insert(s[i].0, v) =~=
            map_of(s.drop_last()).insert(s.last().0, s.last().1).insert(s[i].0, v));
        assert(map_of(s.drop_last()).insert(s.last().0, s.last().1).insert(s[i].0, v) =~=
            map_of(s.drop_last()).insert(s[i].0, v));
    } else {
        assert(unique_keys(s.drop_last())) by {
            assert(forall|p: int, q: int|
                0 <= p < q < s.drop_last().len() ==> s.drop_last()[p].0 != s.drop_last()[q].0);
        }
        assert(s.drop_last()[i] == s[i]);
        lemma_update_keeps_map(s.drop_last(), i, v);
        assert(t.drop_last() =~= s.drop_last().update(i, (s[i].0, v)));
        assert(t.last() == s.last());
        assert(map_of(t) == map_of(s.drop_last()).insert(s[i].0, v).insert(s.last().0, s.last().1));
        assert(s[i].0 != s.last().0);
        assert(map_of(s.drop_last()).insert(s[i].0, v).insert(s.last().0, s.last().1) =~=
            map_of(s.drop_last()).insert(s.last().0, s.last().1).insert(s[i].0, v));
    }
}

} // verus!
