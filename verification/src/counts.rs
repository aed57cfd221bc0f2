use vstd::hash_map::StringHashMap;
use vstd::multiset::Multiset;
use vstd::prelude::*;

verus! {

broadcast use vstd::seq_lib::group_to_multiset_ensures;

/// How often `map` records the sequence `k`: its value there, or 0.
pub open spec fn count_in(map: Map<Seq<char>, usize>, k: Seq<char>) -> nat {
    if map.contains_key(k) {
        map[k] as nat
    } else {
        0
    }
}

/// The number of times each sequence was met, kept in a hash map from the
/// sequence to its count.
pub struct SequenceCounts {
    map: StringHashMap<usize>,
    total: usize,
    seen: Ghost<Multiset<Seq<char>>>,
}

impl View for SequenceCounts {
    type V = Multiset<Seq<char>>;

    /// The sequences recorded so far, each as often as it was recorded.
    closed spec fn view(&self) -> Multiset<Seq<char>> {
        self.seen@
    }
}

impl SequenceCounts {
    /// The map holds, for each sequence, how often it was recorded, and
    /// `total` is the number of records.
    pub closed spec fn wf(&self) -> bool {
        &&& self.total == self.seen@.len()
        &&& forall|k: Seq<char>| #[trigger] count_in(self.map@, k) == self.seen@.count(k)
        &&& forall|k: Seq<char>| #[trigger] self.seen@.count(k) <= self.total
    }

    /// No sequence recorded yet.
    pub fn new() -> (counts: Self)
        ensures
            counts.wf(),
            counts@ == Multiset::<Seq<char>>::empty(),
    {
        let counts = SequenceCounts { map: StringHashMap::new(), total: 0, seen: Ghost(Multiset::empty()) };
        proof {
            broadcast use vstd::multiset::group_multiset_axioms;
        }
        counts
    }

    /// The number of records made.
    pub fn total(&self) -> (n: usize)
        requires
            self.wf(),
        ensures
            n == self@.len(),
    {
        self.total
    }

    /// How often `sequence` was recorded.
    pub fn count(&self, sequence: &str) -> (n: usize)
        requires
            self.wf(),
        ensures
            n == self@.count(sequence@),
    {
        let found = self.map.get(sequence);
        assert(count_in(self.map@, sequence@) == self.seen@.count(sequence@));
        match found {
            Some(n) => *n,
            None => 0,
        }
    }

    /// Records one more occurrence of `sequence`.
    pub fn record(&mut self, sequence: String)
        requires
            old(self).wf(),
            old(self)@.len() < usize::MAX,
        ensures
            final(self).wf(),
            final(self)@ == old(self)@.insert(sequence@),
    {
        broadcast use vstd::multiset::group_multiset_axioms;

        let ghost key = sequence@;
        let current = match self.map.get(sequence.as_str()) {
            Some(n) => *n,
            None => 0,
        };
        assert(count_in(self.map@, key) == self.seen@.count(key));
        self.map.insert(sequence, current + 1);
        self.total = self.total + 1;
        self.seen = Ghost(self.seen@.insert(key));
        assert forall|k: Seq<char>| #[trigger] count_in(self.map@, k) == self.seen@.count(k) by {
            if k != key {
                assert(count_in(old(self).map@, k) == old(self).seen@.count(k));
            }
        }
        assert forall|k: Seq<char>| #[trigger] self.seen@.count(k) <= self.total by {
            assert(old(self).seen@.count(k) <= old(self).total);
        }
    }

    /// Records one more occurrence of each of `sequences`.
    pub fn record_all(&mut self, sequences: &Vec<String>)
        requires
            old(self).wf(),
            old(self)@.len() + sequences@.len() <= usize::MAX,
        ensures
            final(self).wf(),
            final(self)@ == old(self)@.add(sequences@.map_values(|s: String| s@).to_multiset()),
    {
        broadcast use vstd::multiset::group_multiset_axioms;

        let ghost views = sequences@.map_values(|s: String| s@);
        let mut i: usize = 0;
        while i < sequences.len()
            invariant
                i <= sequences@.len(),
                views == sequences@.map_values(|s: String| s@),
                self.wf(),
                self@ == old(self)@.add(views.take(i as int).to_multiset()),
                old(self)@.len() + sequences@.len() <= usize::MAX,
            decreases sequences@.len() - i,
        {
            assert(views.take(i as int).to_multiset().len() == i);
            self.record(sequences[i].clone());
            assert(views.take(i + 1) =~= views.take(i as int).push(views[i as int]));
            assert(self@ =~= old(self)@.add(views.take(i + 1).to_multiset()));
            i += 1;
        }
        assert(views.take(i as int) =~= views);
    }
}

} // verus!
