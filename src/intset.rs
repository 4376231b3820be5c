use vstd::prelude::*;

verus! {

/// A finite set of integers, held as a vector without repeated members.
#[derive(Debug)]
pub struct IntSet {
    members: Vec<i64>,
}

impl View for IntSet {
    type V = Set<i64>;

    closed spec fn view(&self) -> Set<i64> {
        self.members@.to_set()
    }
}

impl IntSet {
    /// No member is stored twice.
    pub closed spec fn wf(&self) -> bool {
        self.members@.no_duplicates()
    }

    /// The empty set.
    pub fn new() -> (r: IntSet)
        ensures
            r.wf(),
            r@ == Set::<i64>::empty(),
    {
        let r = IntSet { members: Vec::new() };
        proof {
            assert(r@ =~= Set::<i64>::empty());
        }
        r
    }

    /// The number of members.
    pub fn len(&self) -> (r: usize)
        requires
            self.wf(),
        ensures
            r == self@.len(),
    {
        proof {
            self.members@.unique_seq_to_set();
        }
        self.members.len()
    }

    /// The member stored at position `i`; positions `0..len()` list each member once.
    pub fn get(&self, i: usize) -> (r: i64)
        requires
            self.wf(),
            i < self@.len(),
        ensures
            self@.contains(r),
            forall|j: int| 0 <= j < self@.len() && j != i ==> self.spec_get(j) != r,
            r == self.spec_get(i as int),
    {
        proof {
            self.members@.unique_seq_to_set();
        }
        self.members[i]
    }

    /// The member at position `i`.
    pub closed spec fn spec_get(&self, i: int) -> i64 {
        self.members@[i]
    }

    /// Every member stands at some position below `len()`.
    pub proof fn lemma_positions_cover(&self)
        requires
            self.wf(),
        ensures
            forall|x: i64|
                self@.contains(x) ==> exists|i: int| 0 <= i < self@.len() && #[trigger] self.spec_get(i) == x,
    {
        self.members@.unique_seq_to_set();
        assert forall|x: i64| self@.contains(x) implies exists|i: int|
            0 <= i < self@.len() && #[trigger] self.spec_get(i) == x by {
            let k = choose|k: int| 0 <= k < self.members@.len() && self.members@[k] == x;
            assert(self.spec_get(k) == x);
        }
    }

    /// Whether `v` is a member.
    pub fn contains(&self, v: i64) -> (r: bool)
        ensures
            r == self@.contains(v),
    {
        let mut i: usize = 0;
        while i < self.members.len()
            invariant
                0 <= i <= self.members@.len(),
                forall|j: int| 0 <= j < i ==> self.members@[j] != v,
            decreases self.members@.len() - i,
        {
            if self.members[i] == v {
                proof {
                    assert(self.members@.contains(v));
                }
                return true;
            }
            i = i + 1;
        }
        false
    }

    /// Adds `v`; nothing changes when it is already a member.
    pub fn insert(&mut self, v: i64)
        requires
            old(self).wf(),
        ensures
            final(self).wf(),
            final(self)@ == old(self)@.insert(v),
    {
        if !self.contains(v) {
            proof {
                lemma_push_set(self.members@, v);
            }
            self.members.push(v);
        } else {
            proof {
                assert(self@.insert(v) =~= self@);
            }
        }
    }

    /// A set with the same members.
    pub fn copy(&self) -> (r: IntSet)
        requires
            self.wf(),
        ensures
            r.wf(),
            r@ == self@,
    {
        let mut r = IntSet::new();
        let mut i: usize = 0;
        while i < self.members.len()
            invariant
                0 <= i <= self.members@.len(),
                r.wf(),
                r@ == self.members@.subrange(0, i as int).to_set(),
            decreases self.members@.len() - i,
        {
            proof {
                lemma_prefix_set_step(self.members@, i as int);
            }
            r.insert(self.members[i]);
            i = i + 1;
        }
        proof {
            assert(self.members@.subrange(0, i as int) =~= self.members@);
        }
        r
    }

    /// The members of either set.
    pub fn union(&self, other: &IntSet) -> (r: IntSet)
        requires
            self.wf(),
            other.wf(),
        ensures
            r.wf(),
            r@ == self@.union(other@),
    {
        let mut r = self.copy();
        let mut i: usize = 0;
        while i < other.members.len()
            invariant
                0 <= i <= other.members@.len(),
                r.wf(),
                r@ == self@.union(other.members@.subrange(0, i as int).to_set()),
            decreases other.members@.len() - i,
        {
            proof {
                lemma_prefix_set_step(other.members@, i as int);
                assert(self@.union(other.members@.subrange(0, i as int).to_set()).insert(
                    other.members@[i as int],
                ) =~= self@.union(other.members@.subrange(0, i + 1).to_set()));
            }
            r.insert(other.members[i]);
            i = i + 1;
        }
        proof {
            assert(other.members@.subrange(0, i as int) =~= other.members@);
        }
        r
    }

    /// The members of both sets.
    pub fn intersection(&self, other: &IntSet) -> (r: IntSet)
        requires
            self.wf(),
            other.wf(),
        ensures
            r.wf(),
            r@ == self@.intersect(other@),
    {
        let mut r = IntSet::new();
        let mut i: usize = 0;
        while i < self.members.len()
            invariant
                0 <= i <= self.members@.len(),
                r.wf(),
                r@ == self.members@.subrange(0, i as int).to_set().intersect(other@),
            decreases self.members@.len() - i,
        {
            let v = self.members[i];
            proof {
                lemma_prefix_set_step(self.members@, i as int);
            }
            if other.contains(v) {
                proof {
                    assert(self.members@.subrange(0, i as int).to_set().intersect(other@).insert(v)
                        =~= self.members@.subrange(0, i + 1).to_set().intersect(other@));
                }
                r.insert(v);
            } else {
                proof {
                    assert(self.members@.subrange(0, i as int).to_set().intersect(other@)
                        =~= self.members@.subrange(0, i + 1).to_set().intersect(other@));
                }
            }
            i = i + 1;
        }
        proof {
            assert(self.members@.subrange(0, i as int) =~= self.members@);
        }
        r
    }

    /// Whether every member of `self` is a member of `other`.
    pub fn is_subset_of(&self, other: &IntSet) -> (r: bool)
        ensures
            r == self@.subset_of(other@),
    {
        let mut i: usize = 0;
        while i < self.members.len()
            invariant
                0 <= i <= self.members@.len(),
                forall|j: int| 0 <= j < i ==> other@.contains(#[trigger] self.members@[j]),
            decreases self.members@.len() - i,
        {
            if !other.contains(self.members[i]) {
                proof {
                    assert(self@.contains(self.members@[i as int]));
                }
                return false;
            }
            i = i + 1;
        }
        proof {
            assert forall|x: i64| self@.contains(x) implies other@.contains(x) by {
                let k = choose|k: int| 0 <= k < self.members@.len() && self.members@[k] == x;
            }
        }
        true
    }

    /// Whether both sets have the same members.
    pub fn same_members(&self, other: &IntSet) -> (r: bool)
        ensures
            r == (self@ == other@),
    {
        let r = self.is_subset_of(other) && other.is_subset_of(self);
        proof {
            if self@.subset_of(other@) && other@.subset_of(self@) {
                assert(self@ =~= other@);
            }
        }
        r
    }
}

/// Appending `v` to `s` adds `v` to the set of `s`.
proof fn lemma_push_set(s: Seq<i64>, v: i64)
    ensures
        s.push(v).to_set() == s.to_set().insert(v),
{
    broadcast use vstd::set::group_set_axioms;

    assert forall|x: i64| #[trigger] s.push(v).to_set().contains(x) <==> s.to_set().insert(v).contains(x) by {
        if s.push(v).contains(x) {
            let k = choose|k: int| 0 <= k < s.len() + 1 && s.push(v)[k] == x;
            if k < s.len() {
                assert(s[k] == x);
            }
        }
        if s.contains(x) {
            let k = choose|k: int| 0 <= k < s.len() && s[k] == x;
            assert(s.push(v)[k] == x);
        }
        if x == v {
            assert(s.push(v)[s.len() as int] == x);
        }
    }
    assert(s.push(v).to_set() =~= s.to_set().insert(v));
}

/// Taking one more element of `s` into a prefix adds that element to the prefix's set.
proof fn lemma_prefix_set_step(s: Seq<i64>, i: int)
    requires
        0 <= i < s.len(),
    ensures
        s.subrange(0, i + 1).to_set() == s.subrange(0, i).to_set().insert(s[i]),
{
    assert(s.subrange(0, i + 1) =~= s.subrange(0, i).push(s[i]));
    lemma_push_set(s.subrange(0, i), s[i]);
}

} // verus!
