//! A duplicate-free set of system-call numbers.

use vstd::prelude::*;

verus! {

/// The system calls reachable from a function, each held once.
pub struct SyscallSet {
    items: Vec<u64>,
}

impl View for SyscallSet {
    type V = Set<u64>;

    closed spec fn view(&self) -> Set<u64> {
        self.items@.to_set()
    }
}

impl SyscallSet {
    /// No number is held twice.
    pub closed spec fn wf(&self) -> bool {
        self.items@.no_duplicates()
    }

    /// The numbers in the order in which they were first inserted.
    pub closed spec fn listing(&self) -> Seq<u64> {
        self.items@
    }

    /// The empty set.
    pub fn new() -> (set: SyscallSet)
        ensures
            set.wf(),
            set@ == Set::<u64>::empty(),
            set.listing().len() == 0,
    {
        let set = SyscallSet { items: Vec::new() };
        assert(set@ =~= Set::<u64>::empty());
        set
    }

    /// How many numbers the set holds.
    pub fn len(&self) -> (n: usize)
        requires
            self.wf(),
        ensures
            n == self@.len(),
            n == self.listing().len(),
    {
        proof {
            self.items@.unique_seq_to_set();
        }
        self.items.len()
    }

    /// Whether the set holds nothing.
    pub fn is_empty(&self) -> (empty: bool)
        ensures
            empty == (self@ == Set::<u64>::empty()),
    {
        let empty = self.items.len() == 0;
        proof {
            if empty {
                assert(self@ =~= Set::<u64>::empty());
            } else {
                assert(self.items@.contains(self.items@[0]));
                assert(self@.contains(self.items@[0]));
            }
        }
        empty
    }

    /// Whether the set holds `syscall`.
    pub fn contains(&self, syscall: u64) -> (found: bool)
        ensures
            found == self@.contains(syscall),
    {
        let mut i: usize = 0;
        while i < self.items.len()
            invariant
                i <= self.items.len(),
                forall|k: int| 0 <= k < i ==> self.items@[k] != syscall,
            decreases self.items.len() - i,
        {
            if self.items[i] == syscall {
                return true;
            }
            i += 1;
        }
        false
    }

    /// Adds one number; a number already held changes nothing.
    pub fn insert(&mut self, syscall: u64)
        requires
            old(self).wf(),
        ensures
            final(self).wf(),
            final(self)@ == old(self)@.insert(syscall),
            old(self)@.contains(syscall) ==> final(self).listing() == old(self).listing(),
            !old(self)@.contains(syscall) ==> final(self).listing() == old(self).listing().push(
                syscall,
            ),
    {
        if !self.contains(syscall) {
            self.items.push(syscall);
            proof {
                let before = old(self).items@;
                let after = self.items@;
                assert(after == before.push(syscall));
                assert forall|s: u64| after.contains(s) <==> (before.contains(s) || s
                    == syscall) by {
                    if before.contains(s) {
                        let k = choose|k: int| 0 <= k < before.len() && before[k] == s;
                        assert(after[k] == s);
                    }
                    if s == syscall {
                        assert(after[before.len() as int] == s);
                    }
                }
                assert(self@ =~= old(self)@.insert(syscall));
            }
        } else {
            assert(self@ =~= old(self)@.insert(syscall));
        }
    }

    /// Union in place: afterwards the set holds what either held.
    pub fn merge(&mut self, other: &SyscallSet)
        requires
            old(self).wf(),
        ensures
            final(self).wf(),
            final(self)@ == old(self)@.union(other@),
    {
        let mut i: usize = 0;
        while i < other.items.len()
            invariant
                i <= other.items.len(),
                self.wf(),
                self@ == old(self)@.union(other.items@.take(i as int).to_set()),
            decreases other.items.len() - i,
        {
            let ghost before = self@;
            self.insert(other.items[i]);
            proof {
                let head = other.items@.take(i as int);
                let next = other.items@.take(i + 1);
                assert(next == head.push(other.items@[i as int]));
                assert forall|s: u64| next.contains(s) <==> (head.contains(s) || s
                    == other.items@[i as int]) by {
                    if head.contains(s) {
                        let k = choose|k: int| 0 <= k < head.len() && head[k] == s;
                        assert(next[k] == s);
                    }
                    if s == other.items@[i as int] {
                        assert(next[i as int] == s);
                    }
                }
                assert(self@ =~= old(self)@.union(next.to_set()));
            }
            i += 1;
        }
        proof {
            assert(other.items@.take(i as int) == other.items@);
            assert(old(self)@.union(Seq::<u64>::empty().to_set()) =~= old(self)@);
        }
    }

    /// The numbers held, in insertion order.
    pub fn to_vec(&self) -> (numbers: Vec<u64>)
        ensures
            numbers@ == self.listing(),
            numbers@.to_set() == self@,
    {
        self.items.clone()
    }
}

impl Clone for SyscallSet {
    fn clone(&self) -> (copy: SyscallSet)
        ensures
            copy@ == self@,
            copy.wf() == self.wf(),
            copy.listing() == self.listing(),
    {
        SyscallSet { items: self.items.clone() }
    }
}

/// Merging a set into one that already holds all of it changes nothing; in
/// particular a set merged with itself is unchanged.
pub proof fn law_merge_idempotent(a: Set<u64>)
    ensures
        a.union(a) == a,
{
    assert(a.union(a) =~= a);
}

/// The order of two merges does not matter.
pub proof fn law_merge_commutes(a: Set<u64>, b: Set<u64>)
    ensures
        a.union(b) == b.union(a),
{
    assert(a.union(b) =~= b.union(a));
}

} // verus!
