use vstd::prelude::*;

verus! {

/// Where a key's most recent `Put` record lies: the generation of its owning
/// segment and the record's byte range within that segment.
#[derive(Clone, Copy)]
pub struct CmdOffset {
    pub gen: u64,
    pub start: u64,
    pub end: u64,
}

/// One key of the index together with the location of its record.
pub struct IndexEntry {
    pub key: String,
    pub off: CmdOffset,
}

/// The map an entry list denotes: later entries win, though a well-formed
/// index never holds a key twice.
pub open spec fn entries_map(s: Seq<IndexEntry>) -> Map<Seq<char>, CmdOffset>
    decreases s.len(),
{
    if s.len() == 0 {
        Map::empty()
    } else {
        entries_map(s.drop_last()).insert(s.last().key@, s.last().off)
    }
}

/// No key occurs twice.
pub open spec fn distinct_keys(s: Seq<IndexEntry>) -> bool {
    forall|i: int, j: int| 0 <= i < j < s.len() ==> s[i].key@ != s[j].key@
}

/// The sum of the entries' byte-range lengths: how many live bytes the index
/// points at.
pub open spec fn sum_ranges(s: Seq<IndexEntry>) -> int
    decreases s.len(),
{
    if s.len() == 0 {
        0
    } else {
        sum_ranges(s.drop_last()) + s.last().off.end - s.last().off.start
    }
}

/// Every listed entry is in the denoted map, at its own offset.
pub proof fn lemma_entries_map_index(s: Seq<IndexEntry>, i: int)
    requires
        distinct_keys(s),
        0 <= i < s.len(),
    ensures
        entries_map(s).contains_key(s[i].key@),
        entries_map(s)[s[i].key@] == s[i].off,
    decreases s.len(),
{
    if i < s.len() - 1 {
        assert(distinct_keys(s.drop_last()));
        lemma_entries_map_index(s.drop_last(), i);
        assert(s.drop_last()[i] == s[i]);
        assert(s.last().key@ != s[i].key@);
    }
}

/// Every key of the denoted map is listed.
pub proof fn lemma_entries_map_domain(s: Seq<IndexEntry>)
    ensures
        forall|k: Seq<char>|
            entries_map(s).contains_key(k) ==> exists|i: int|
                0 <= i < s.len() && #[trigger] s[i].key@ == k,
    decreases s.len(),
{
    if s.len() > 0 {
        lemma_entries_map_domain(s.drop_last());
        assert forall|k: Seq<char>| entries_map(s).contains_key(k) implies exists|i: int|
            0 <= i < s.len() && #[trigger] s[i].key@ == k by {
            if k == s.last().key@ {
                assert(s[s.len() - 1].key@ == k);
            } else {
                assert(entries_map(s.drop_last()).contains_key(k));
                let i = choose|i: int|
                    0 <= i < s.drop_last().len() && #[trigger] s.drop_last()[i].key@ == k;
                assert(s[i].key@ == k);
            }
        }
    }
}

/// Replacing the entry of a key replaces that key's offset in the map.
pub proof fn lemma_entries_map_update(s: Seq<IndexEntry>, i: int, e: IndexEntry)
    requires
        distinct_keys(s),
        0 <= i < s.len(),
        e.key@ == s[i].key@,
    ensures
        entries_map(s.update(i, e)) == entries_map(s).insert(e.key@, e.off),
        distinct_keys(s.update(i, e)),
        sum_ranges(s.update(i, e)) == sum_ranges(s) - (s[i].off.end - s[i].off.start) + (
        e.off.end - e.off.start),
    decreases s.len(),
{
    let t = s.update(i, e);
    if i == s.len() - 1 {
        assert(t.drop_last() =~= s.drop_last());
        assert(t.last() == e);
        assert(entries_map(t) =~= entries_map(s).insert(e.key@, e.off));
    } else {
        assert(distinct_keys(s.drop_last()));
        assert(s.drop_last()[i] == s[i]);
        lemma_entries_map_update(s.drop_last(), i, e);
        assert(t.drop_last() =~= s.drop_last().update(i, e));
        assert(t.last() == s.last());
        assert(s.last().key@ != e.key@);
        assert(entries_map(t) =~= entries_map(s).insert(e.key@, e.off));
    }
}

/// Adding an entry for a fresh key adds exactly that key to the map.
pub proof fn lemma_entries_map_push(s: Seq<IndexEntry>, e: IndexEntry)
    requires
        distinct_keys(s),
        forall|i: int| 0 <= i < s.len() ==> s[i].key@ != e.key@,
    ensures
        entries_map(s.push(e)) == entries_map(s).insert(e.key@, e.off),
        distinct_keys(s.push(e)),
        sum_ranges(s.push(e)) == sum_ranges(s) + e.off.end - e.off.start,
{
    assert(s.push(e).drop_last() =~= s);
    assert(s.push(e).last() == e);
}

/// Removing the entry of a key removes exactly that key from the map.
pub proof fn lemma_entries_map_remove(s: Seq<IndexEntry>, i: int)
    requires
        distinct_keys(s),
        0 <= i < s.len(),
    ensures
        entries_map(s.remove(i)) == entries_map(s).remove(s[i].key@),
        distinct_keys(s.remove(i)),
        sum_ranges(s.remove(i)) == sum_ranges(s) - (s[i].off.end - s[i].off.start),
    decreases s.len(),
{
    let t = s.remove(i);
    if i == s.len() - 1 {
        assert(t =~= s.drop_last());
        lemma_entries_map_domain(s.drop_last());
        assert(!entries_map(s.drop_last()).contains_key(s[i].key@));
        assert(entries_map(t) =~= entries_map(s).remove(s[i].key@));
    } else {
        assert(distinct_keys(s.drop_last()));
        assert(s.drop_last()[i] == s[i]);
        lemma_entries_map_remove(s.drop_last(), i);
        assert(t.drop_last() =~= s.drop_last().remove(i));
        assert(t.last() == s.last());
        assert(s.last().key@ != s[i].key@);
        assert(entries_map(t) =~= entries_map(s).remove(s[i].key@));
    }
}

/// A distinct-key entry list denotes a map with one key per entry.
pub proof fn lemma_entries_map_len(s: Seq<IndexEntry>)
    requires
        distinct_keys(s),
    ensures
        entries_map(s).dom().finite(),
        entries_map(s).dom().len() == s.len(),
    decreases s.len(),
{
    if s.len() > 0 {
        assert(distinct_keys(s.drop_last()));
        lemma_entries_map_len(s.drop_last());
        lemma_entries_map_domain(s.drop_last());
        assert(!entries_map(s.drop_last()).contains_key(s.last().key@));
        assert(entries_map(s).dom() =~= entries_map(s.drop_last()).dom().insert(s.last().key@));
    }
}

/// One entry's range is at most the whole sum, when no range is negative.
pub proof fn lemma_sum_ranges_element(s: Seq<IndexEntry>, i: int)
    requires
        0 <= i < s.len(),
        forall|j: int| 0 <= j < s.len() ==> #[trigger] s[j].off.start <= s[j].off.end,
    ensures
        s[i].off.end - s[i].off.start <= sum_ranges(s),
        0 <= sum_ranges(s),
    decreases s.len(),
{
    if i == s.len() - 1 {
        lemma_sum_ranges_nonneg(s.drop_last());
    } else {
        assert(s.drop_last()[i] == s[i]);
        lemma_sum_ranges_element(s.drop_last(), i);
    }
}

/// A sum of byte-range lengths is never negative.
pub proof fn lemma_sum_ranges_nonneg(s: Seq<IndexEntry>)
    requires
        forall|j: int| 0 <= j < s.len() ==> #[trigger] s[j].off.start <= s[j].off.end,
    ensures
        0 <= sum_ranges(s),
    decreases s.len(),
{
    if s.len() > 0 {
        assert(forall|j: int|
            0 <= j < s.drop_last().len() ==> #[trigger] s.drop_last()[j].off.start
                <= s.drop_last()[j].off.end);
        lemma_sum_ranges_nonneg(s.drop_last());
    }
}

/// The in-memory index: each key the store holds, with the location of its
/// most recent record. Keys are unique.
pub struct Index {
    entries: Vec<IndexEntry>,
}

impl View for Index {
    type V = Map<Seq<char>, CmdOffset>;

    closed spec fn view(&self) -> Map<Seq<char>, CmdOffset> {
        entries_map(self.entries@)
    }
}

impl Index {
    /// The entries as listed, for callers that walk the index in order.
    pub closed spec fn entries_seq(&self) -> Seq<IndexEntry> {
        self.entries@
    }

    /// Keys are unique.
    pub open spec fn wf(&self) -> bool {
        distinct_keys(self.entries_seq())
    }

    /// The map is the one the entry list denotes.
    pub proof fn lemma_view(&self)
        ensures
            self@ == entries_map(self.entries_seq()),
    {
    }

    /// An empty index.
    pub fn new() -> (r: Index)
        ensures
            r@ == Map::<Seq<char>, CmdOffset>::empty(),
            r.wf(),
            r.entries_seq() == Seq::<IndexEntry>::empty(),
    {
        Index { entries: Vec::new() }
    }

    /// How many keys the index holds.
    pub fn len(&self) -> (r: usize)
        ensures
            r == self.entries_seq().len(),
    {
        self.entries.len()
    }

    /// The entry at a position, copied out.
    pub fn entry_at(&self, i: usize) -> (r: (String, CmdOffset))
        requires
            i < self.entries_seq().len(),
        ensures
            r.0@ == self.entries_seq()[i as int].key@,
            r.1 == self.entries_seq()[i as int].off,
    {
        let e = &self.entries[i];
        (e.key.clone(), e.off)
    }

    /// Finds the position of a key's entry.
    fn find(&self, key: &String) -> (r: Option<usize>)
        requires
            self.wf(),
        ensures
            match r {
                Some(i) => i < self.entries_seq().len() && self.entries_seq()[i as int].key@
                    == key@ && self@.contains_key(key@) && self@[key@]
                    == self.entries_seq()[i as int].off,
                None => !self@.contains_key(key@),
            },
    {
        let n = self.entries.len();
        let mut i: usize = 0;
        while i < n
            invariant
                n == self.entries@.len(),
                i <= n,
                self.wf(),
                forall|j: int| 0 <= j < i ==> self.entries@[j].key@ != key@,
            decreases n - i,
        {
            if self.entries[i].key == *key {
                proof {
                    lemma_entries_map_index(self.entries@, i as int);
                }
                return Some(i);
            }
            i = i + 1;
        }
        proof {
            lemma_entries_map_domain(self.entries@);
        }
        None
    }

    /// Looks a key up.
    pub fn lookup(&self, key: &String) -> (r: Option<CmdOffset>)
        requires
            self.wf(),
        ensures
            match r {
                Some(off) => self@.contains_key(key@) && off == self@[key@],
                None => !self@.contains_key(key@),
            },
    {
        match self.find(key) {
            Some(i) => Some(self.entries[i].off),
            None => None,
        }
    }

    /// Binds a key to an offset, replacing and returning any former binding.
    pub fn insert(&mut self, key: String, off: CmdOffset) -> (r: Option<CmdOffset>)
        requires
            old(self).wf(),
        ensures
            final(self).wf(),
            final(self)@ == old(self)@.insert(key@, off),
            forall|j: int|
                0 <= j < final(self).entries_seq().len()
                    ==> (#[trigger] final(self).entries_seq()[j]).off == off || exists|j2: int|
                    0 <= j2 < old(self).entries_seq().len() && final(self).entries_seq()[j].off
                        == (#[trigger] old(self).entries_seq()[j2]).off,
            match r {
                Some(former) => old(self)@.contains_key(key@) && former == old(self)@[key@]
                    && sum_ranges(final(self).entries_seq()) == sum_ranges(
                    old(self).entries_seq(),
                ) - (former.end - former.start) + (off.end - off.start),
                None => !old(self)@.contains_key(key@) && sum_ranges(final(self).entries_seq())
                    == sum_ranges(old(self).entries_seq()) + off.end - off.start
                    && final(self).entries_seq() == old(self).entries_seq().push(
                    IndexEntry { key, off },
                ),
            },
    {
        match self.find(&key) {
            Some(i) => {
                let former = self.entries[i].off;
                let ghost s = self.entries@;
                let e = IndexEntry { key, off };
                proof {
                    lemma_entries_map_update(s, i as int, e);
                }
                self.entries[i] = e;
                Some(former)
            },
            None => {
                let ghost s = self.entries@;
                let e = IndexEntry { key, off };
                proof {
                    assert forall|j: int| 0 <= j < s.len() implies s[j].key@ != e.key@ by {
                        lemma_entries_map_index(s, j);
                    }
                    lemma_entries_map_push(s, e);
                }
                self.entries.push(e);
                None
            },
        }
    }

    /// Unbinds a key, returning its former offset, or `None` when the key
    /// was not bound (in which case nothing changes).
    pub fn remove(&mut self, key: &String) -> (r: Option<CmdOffset>)
        requires
            old(self).wf(),
        ensures
            final(self).wf(),
            forall|j: int|
                0 <= j < final(self).entries_seq().len() ==> exists|j2: int|
                    0 <= j2 < old(self).entries_seq().len()
                        && (#[trigger] final(self).entries_seq()[j]).off
                        == (#[trigger] old(self).entries_seq()[j2]).off,
            match r {
                Some(former) => old(self)@.contains_key(key@) && former == old(self)@[key@]
                    && final(self)@ == old(self)@.remove(key@) && sum_ranges(
                    final(self).entries_seq(),
                ) == sum_ranges(old(self).entries_seq()) - (former.end - former.start),
                None => !old(self)@.contains_key(key@) && final(self)@ == old(self)@
                    && final(self).entries_seq() == old(self).entries_seq(),
            },
    {
        match self.find(key) {
            Some(i) => {
                let ghost s = self.entries@;
                proof {
                    lemma_entries_map_remove(s, i as int);
                }
                let e = self.entries.remove(i);
                Some(e.off)
            },
            None => None,
        }
    }
}

} // verus!
