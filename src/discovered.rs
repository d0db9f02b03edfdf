//! The set of page URLs found during one resolution: unique by exact string,
//! growing only by insertion.
use vstd::prelude::*;

verus! {

pub struct DiscoveredSet {
    entries: Vec<String>,
}

impl View for DiscoveredSet {
    type V = Set<Seq<char>>;

    closed spec fn view(&self) -> Set<Seq<char>> {
        self.entries.deep_view().to_set()
    }
}

impl DiscoveredSet {
    /// No URL is held twice.
    pub closed spec fn wf(&self) -> bool {
        self.entries.deep_view().no_duplicates()
    }

    pub fn new() -> (r: DiscoveredSet)
        ensures
            r.wf(),
            r@ == Set::<Seq<char>>::empty(),
    {
        let r = DiscoveredSet { entries: Vec::new() };
        assert(r.entries.deep_view() =~= Seq::<Seq<char>>::empty());
        assert(r@ =~= Set::<Seq<char>>::empty());
        r
    }

    /// Whether `url` is held, compared as an exact string.
    pub fn contains(&self, url: &String) -> (r: bool)
        ensures
            r == self@.contains(url@),
    {
        let mut i: usize = 0;
        while i < self.entries.len()
            invariant
                i <= self.entries.len(),
                forall|j: int| 0 <= j < i ==> self.entries.deep_view()[j] != url@,
            decreases self.entries.len() - i,
        {
            if self.entries[i] == *url {
                assert(self.entries.deep_view()[i as int] == url@);
                return true;
            }
            i = i + 1;
        }
        false
    }

    /// Adds `url`; returns whether it was new. Adding a URL that is already held
    /// changes nothing.
    pub fn insert(&mut self, url: String) -> (added: bool)
        requires
            old(self).wf(),
        ensures
            final(self).wf(),
            final(self)@ == old(self)@.insert(url@),
            added == !old(self)@.contains(url@),
            final(self)@.len() == old(self)@.len() + if added { 1int } else { 0int },
    {
        proof {
            self.entries.deep_view().unique_seq_to_set();
        }
        if self.contains(&url) {
            assert(self@.insert(url@) =~= self@);
            return false;
        }
        let ghost before = self.entries.deep_view();
        self.entries.push(url);
        proof {
            let after = self.entries.deep_view();
            assert(after =~= before.push(url@));
            assert(after.to_set() =~= before.to_set().insert(url@)) by {
                assert forall|x: Seq<char>| after.contains(x) <==> before.contains(x) || x == url@ by {
                    if after.contains(x) {
                        let k = choose|k: int| 0 <= k < after.len() && after[k] == x;
                        if k < before.len() {
                            assert(before[k] == x);
                        }
                    }
                    if before.contains(x) {
                        let k = choose|k: int| 0 <= k < before.len() && before[k] == x;
                        assert(after[k] == x);
                    }
                    if x == url@ {
                        assert(after[before.len() as int] == x);
                    }
                }
            }
            assert(after.no_duplicates()) by {
                assert forall|i: int, j: int| 0 <= i < after.len() && 0 <= j < after.len() && i != j implies after[i] != after[j] by {
                    if i < before.len() && j < before.len() {
                    } else if i < before.len() {
                        assert(before.contains(before[i]));
                    } else if j < before.len() {
                        assert(before.contains(before[j]));
                    }
                }
            }
            after.unique_seq_to_set();
        }
        true
    }

    /// How many URLs are held.
    pub fn len(&self) -> (r: usize)
        requires
            self.wf(),
        ensures
            r == self@.len(),
    {
        proof {
            self.entries.deep_view().unique_seq_to_set();
        }
        self.entries.len()
    }

    /// The URLs held, each once, in the order they were first added.
    pub fn urls(&self) -> (r: Vec<String>)
        requires
            self.wf(),
        ensures
            r.deep_view().no_duplicates(),
            r.deep_view().to_set() == self@,
            r.len() == self@.len(),
    {
        proof {
            self.entries.deep_view().unique_seq_to_set();
        }
        let mut r: Vec<String> = Vec::new();
        let mut i: usize = 0;
        while i < self.entries.len()
            invariant
                i <= self.entries.len(),
                r.deep_view() == self.entries.deep_view().take(i as int),
            decreases self.entries.len() - i,
        {
            let ghost before = r.deep_view();
            let url = self.entries[i].clone();
            assert(url@ == self.entries.deep_view()[i as int]);
            r.push(url);
            assert(r.deep_view() =~= before.push(url@));
            assert(r.deep_view() =~= self.entries.deep_view().take(i + 1));
            i = i + 1;
        }
        assert(self.entries.deep_view().take(i as int) =~= self.entries.deep_view());
        r
    }
}

} // verus!
