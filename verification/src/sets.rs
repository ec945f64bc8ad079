//! Finite sets of small copyable keys, stored without repetition.

use vstd::prelude::*;

verus! {

/// A value that executable code can compare for equality, such that the comparison
/// agrees with equality in specifications.
pub trait Key: Copy {
    /// Whether `self` and `other` are the same value.
    fn same(&self, other: &Self) -> (b: bool)
        ensures
            b == (*self == *other),
    ;
}

/// A finite set of keys. Its view is the mathematical set of its members.
#[derive(Debug)]
pub struct VecSet<T: Key> {
    items: Vec<T>,
}

impl<T: Key> View for VecSet<T> {
    type V = Set<T>;

    closed spec fn view(&self) -> Set<T> {
        self.items@.to_set()
    }
}

impl<T: Key> VecSet<T> {
    #[verifier::type_invariant]
    spec fn no_repetition(&self) -> bool {
        self.items@.no_duplicates()
    }

    /// The empty set.
    pub fn new() -> (s: Self)
        ensures
            s@ == Set::<T>::empty(),
    {
        let s = VecSet { items: Vec::new() };
        assert(s.items@.to_set() =~= Set::<T>::empty());
        s
    }

    /// Whether `key` is a member.
    pub fn contains(&self, key: T) -> (b: bool)
        ensures
            b == self@.contains(key),
    {
        let mut i: usize = 0;
        while i < self.items.len()
            invariant
                i <= self.items.len(),
                forall|j: int| 0 <= j < i ==> self.items@[j] != key,
            decreases self.items.len() - i,
        {
            if self.items[i].same(&key) {
                return true;
            }
            i += 1;
        }
        false
    }

    /// Adds `key`; returns whether it was absent before.
    pub fn insert(&mut self, key: T) -> (added: bool)
        ensures
            final(self)@ == old(self)@.insert(key),
            added == !old(self)@.contains(key),
    {
        if self.contains(key) {
            assert(self@.insert(key) =~= self@);
            false
        } else {
            self.insert_absent(key);
            true
        }
    }

    /// Adds `key`, which is known to be absent, without looking for it.
    pub fn insert_absent(&mut self, key: T)
        requires
            !old(self)@.contains(key),
        ensures
            final(self)@ == old(self)@.insert(key),
    {
        proof {
            use_type_invariant(&*self);
        }
        let ghost before = self.items@;
        let mut items: Vec<T> = Vec::new();
        core::mem::swap(&mut self.items, &mut items);
        items.push(key);
        core::mem::swap(&mut self.items, &mut items);
        proof {
            let after = self.items@;
            assert(after.take(before.len() as int) == before);
            assert(after.take(after.len() as int) == after);
            lemma_take_push_to_set(after, before.len() as int);
        }
    }

    /// Adds every member of `other`.
    pub fn union(&mut self, other: &Self)
        ensures
            final(self)@ == old(self)@.union(other@),
    {
        let mut i: usize = 0;
        while i < other.items.len()
            invariant
                i <= other.items.len(),
                self@ == old(self)@.union(other.items@.take(i as int).to_set()),
            decreases other.items.len() - i,
        {
            let key = other.items[i];
            self.insert(key);
            proof {
                lemma_take_push_to_set(other.items@, i as int);
                assert(self@ =~= old(self)@.union(other.items@.take(i + 1).to_set()));
            }
            i += 1;
        }
        proof {
            assert(other.items@.take(other.items@.len() as int) == other.items@);
        }
    }

    /// Whether every member of `other` is a member of `self`.
    pub fn is_superset(&self, other: &Self) -> (b: bool)
        ensures
            b == other@.subset_of(self@),
    {
        let mut i: usize = 0;
        while i < other.items.len()
            invariant
                i <= other.items.len(),
                forall|j: int| 0 <= j < i ==> self@.contains(other.items@[j]),
            decreases other.items.len() - i,
        {
            if !self.contains(other.items[i]) {
                assert(other@.contains(other.items@[i as int]));
                return false;
            }
            i += 1;
        }
        true
    }

    /// Whether the set has no member.
    pub fn is_empty(&self) -> (b: bool)
        ensures
            b == self@.is_empty(),
    {
        let b = self.items.len() == 0;
        proof {
            if b {
                assert(self@ =~= Set::<T>::empty());
            } else {
                assert(self@.contains(self.items@[0]));
            }
        }
        b
    }

    /// The members, each exactly once.
    pub fn elements(&self) -> (items: &Vec<T>)
        ensures
            items@.to_set() == self@,
            items@.no_duplicates(),
    {
        proof {
            use_type_invariant(self);
        }
        &self.items
    }

    /// The set of the values in `keys`.
    pub fn from_vec(keys: &Vec<T>) -> (s: Self)
        ensures
            s@ == keys@.to_set(),
    {
        let mut s = Self::new();
        let mut i: usize = 0;
        while i < keys.len()
            invariant
                i <= keys.len(),
                s@ == keys@.take(i as int).to_set(),
            decreases keys.len() - i,
        {
            s.insert(keys[i]);
            proof {
                lemma_take_push_to_set(keys@, i as int);
            }
            i += 1;
        }
        proof {
            assert(keys@.take(keys@.len() as int) == keys@);
        }
        s
    }

    /// The number of members.
    pub fn len(&self) -> (n: usize)
        ensures
            n == self@.len(),
            self@.finite(),
    {
        proof {
            use_type_invariant(self);
            self.items@.unique_seq_to_set();
        }
        self.items.len()
    }
}

impl<T: Key> Clone for VecSet<T> {
    fn clone(&self) -> (copy: Self)
        ensures
            copy@ == self@,
    {
        proof {
            use_type_invariant(self);
        }
        let mut items: Vec<T> = Vec::new();
        let mut i: usize = 0;
        while i < self.items.len()
            invariant
                i <= self.items.len(),
                items@ == self.items@.take(i as int),
            decreases self.items.len() - i,
        {
            items.push(self.items[i]);
            assert(self.items@.take(i + 1) == self.items@.take(i as int).push(
                self.items@[i as int],
            ));
            i += 1;
        }
        assert(self.items@.take(self.items@.len() as int) == self.items@);
        VecSet { items }
    }
}

/// Taking one more element of a sequence adds that element to the set of those taken.
pub(crate) proof fn lemma_take_push_to_set<T>(s: Seq<T>, i: int)
    requires
        0 <= i < s.len(),
    ensures
        s.take(i + 1).to_set() == s.take(i).to_set().insert(s[i]),
{
    let done = s.take(i);
    let next = s.take(i + 1);
    assert(next == done.push(s[i]));
    assert forall|x: T| next.to_set().contains(x) == done.to_set().insert(s[i]).contains(x) by {
        if done.contains(x) {
            let j = choose|j: int| 0 <= j < done.len() && done[j] == x;
            assert(next[j] == x);
        }
        if x == s[i] {
            assert(next[i] == x);
        }
    }
    assert(next.to_set() =~= done.to_set().insert(s[i]));
}

} // verus!
