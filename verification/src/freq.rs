//! The frequency table: a mapping from byte value to occurrence count,
//! kept in ascending key order so that serialization is deterministic.

use vstd::prelude::*;

verus! {

/// Entries are sorted strictly ascending by byte value and every stored
/// count is at least one (zero-count entries are never stored).
pub open spec fn entries_wf(s: Seq<(u8, usize)>) -> bool {
    &&& forall|i: int, j: int|
        #![trigger s[i], s[j]]
        0 <= i < j < s.len() ==> s[i].0 < s[j].0
    &&& forall|i: int| #![trigger s[i]] 0 <= i < s.len() ==> s[i].1 >= 1
}

/// The count recorded for byte `b`, if any.
pub open spec fn lookup(s: Seq<(u8, usize)>, b: u8) -> Option<usize>
    decreases s.len(),
{
    if s.len() == 0 {
        None
    } else if s.last().0 == b {
        Some(s.last().1)
    } else {
        lookup(s.drop_last(), b)
    }
}

/// The sum of all counts: the total number of symbols of the source stream.
pub open spec fn total_count(s: Seq<(u8, usize)>) -> int
    decreases s.len(),
{
    if s.len() == 0 {
        0
    } else {
        total_count(s.drop_last()) + s.last().1
    }
}

/// Where a map-style insert of `(b, c)` lands in a sorted entry sequence.
pub open spec fn spec_insert(s: Seq<(u8, usize)>, b: u8, c: usize) -> Seq<(u8, usize)>
    decreases s.len(),
{
    if s.len() == 0 {
        seq![(b, c)]
    } else if s.last().0 < b {
        s.push((b, c))
    } else if s.last().0 == b {
        s.drop_last().push((b, c))
    } else {
        spec_insert(s.drop_last(), b, c).push(s.last())
    }
}

/// A mapping from byte value (0-255) to a positive occurrence count.
#[derive(Debug)]
pub struct FreqTable {
    pub(crate) entries: Vec<(u8, usize)>,
}

impl View for FreqTable {
    type V = Seq<(u8, usize)>;

    closed spec fn view(&self) -> Seq<(u8, usize)> {
        self.entries@
    }
}

impl FreqTable {
    pub open spec fn wf(&self) -> bool {
        entries_wf(self@)
    }

    /// An empty table.
    pub fn new() -> (r: FreqTable)
        ensures
            r.wf(),
            r@ == Seq::<(u8, usize)>::empty(),
    {
        FreqTable { entries: Vec::new() }
    }

    /// Wraps an already sorted entry list.
    pub(crate) fn from_sorted(entries: Vec<(u8, usize)>) -> (r: FreqTable)
        requires
            entries_wf(entries@),
        ensures
            r.wf(),
            r@ == entries@,
    {
        FreqTable { entries }
    }

    /// The number of distinct byte values recorded.
    pub fn len(&self) -> (r: usize)
        ensures
            r == self@.len(),
    {
        self.entries.len()
    }

    /// The entry at position `i` in ascending byte order.
    pub fn entry_at(&self, i: usize) -> (r: (u8, usize))
        requires
            i < self@.len(),
        ensures
            r == self@[i as int],
    {
        self.entries[i]
    }

    /// The count recorded for `b`, if any.
    pub fn get(&self, b: u8) -> (r: Option<usize>)
        ensures
            r == lookup(self@, b),
    {
        let n = self.entries.len();
        let mut i: usize = n;
        proof {
            assert(self@.take(n as int) =~= self@);
        }
        loop
            invariant
                i <= n,
                n == self@.len(),
                lookup(self@, b) == lookup(self@.take(i as int), b),
            decreases i,
        {
            if i == 0 {
                assert(self@.take(0int) =~= Seq::<(u8, usize)>::empty());
                return None;
            }
            let e = self.entries[i - 1];
            proof {
                assert(self@.take(i as int).last() == self@[i - 1]);
                assert(self@.take(i as int).drop_last() =~= self@.take(i - 1));
            }
            if e.0 == b {
                return Some(e.1);
            }
            i = i - 1;
        }
    }

    /// Map-style insert: records count `c` for byte `b`, replacing any
    /// earlier entry for `b` and keeping the entries sorted.
    pub fn insert(&mut self, b: u8, c: usize)
        requires
            c >= 1,
            old(self).wf(),
        ensures
            final(self).wf(),
            final(self)@ == spec_insert(old(self)@, b, c),
    {
        let ghost s0 = self@;
        let n = self.entries.len();
        let mut i: usize = n;
        while i > 0 && self.entries[i - 1].0 > b
            invariant
                i <= n,
                n == self@.len(),
                self@ == s0,
                forall|j: int| #![trigger s0[j]] i <= j < n ==> s0[j].0 > b,
            decreases i,
        {
            i = i - 1;
        }
        proof {
            lemma_spec_insert_split(s0, b, c, i as int);
        }
        if i > 0 && self.entries[i - 1].0 == b {
            self.entries[i - 1] = (b, c);
            proof {
                assert(self@ =~= s0.update(i - 1, (b, c)));
                assert(entries_wf(self@)) by {
                    assert(forall|j: int|
                        #![trigger self@[j]]
                        0 <= j < self@.len() ==> self@[j].0 == s0[j].0);
                }
            }
        } else {
            self.entries.insert(i, (b, c));
            proof {
                assert(entries_wf(self@)) by {
                    assert(forall|j: int|
                        #![trigger self@[j]]
                        0 <= j < i ==> self@[j] == s0[j]);
                    assert(forall|j: int|
                        #![trigger self@[j]]
                        i < j < self@.len() ==> self@[j] == s0[j - 1]);
                    assert(forall|j: int| #![trigger s0[j]] 0 <= j < i - 1 ==> s0[j].0 < s0[i - 1].0);
                }
            }
        }
    }
}

/// Locates `spec_insert` at the split point `i`: everything at or after `i`
/// has a key above `b`, everything before stays put.
proof fn lemma_spec_insert_split(s: Seq<(u8, usize)>, b: u8, c: usize, i: int)
    requires
        entries_wf(s),
        0 <= i <= s.len(),
        forall|j: int| #![trigger s[j]] i <= j < s.len() ==> s[j].0 > b,
        i > 0 ==> s[i - 1].0 <= b,
    ensures
        i > 0 && s[i - 1].0 == b ==> spec_insert(s, b, c) == s.update(i - 1, (b, c)),
        !(i > 0 && s[i - 1].0 == b) ==> spec_insert(s, b, c) == s.insert(i, (b, c)),
    decreases s.len(),
{
    if s.len() == 0 {
        assert(spec_insert(s, b, c) =~= s.insert(0, (b, c)));
    } else if i == s.len() {
        if s.last().0 == b {
            assert(spec_insert(s, b, c) =~= s.update(i - 1, (b, c)));
        } else {
            assert(s.last().0 < b);
            assert(spec_insert(s, b, c) =~= s.insert(i, (b, c)));
        }
    } else {
        assert(s.last().0 > b);
        lemma_spec_insert_split(s.drop_last(), b, c, i);
        if i > 0 && s[i - 1].0 == b {
            assert(spec_insert(s, b, c) =~= s.update(i - 1, (b, c)));
        } else {
            assert(spec_insert(s, b, c) =~= s.insert(i, (b, c)));
        }
    }
}

impl PartialEq for FreqTable {
    /// Two tables are equal when they hold the same entries in the same order.
    fn eq(&self, other: &FreqTable) -> (r: bool) {
        let n = self.entries.len();
        if n != other.entries.len() {
            return false;
        }
        let mut i: usize = 0;
        while i < n
            invariant
                i <= n,
                n == self@.len() == other@.len(),
                forall|j: int| 0 <= j < i ==> self@[j] == other@[j],
            decreases n - i,
        {
            let a = self.entries[i];
            let b = other.entries[i];
            if a.0 != b.0 || a.1 != b.1 {
                return false;
            }
            i = i + 1;
        }
        proof {
            assert(self@ =~= other@);
        }
        true
    }
}

impl vstd::std_specs::cmp::PartialEqSpecImpl for FreqTable {
    open spec fn obeys_eq_spec() -> bool {
        true
    }

    open spec fn eq_spec(&self, other: &FreqTable) -> bool {
        self@ == other@
    }
}

} // verus!
