//! The set of flags that are currently defined.

use vstd::prelude::*;
use crate::order::{ascending, insert_sorted, keys_of, name_key};
use crate::scan::copy_range;

verus! {

/// A set of flag names. The names are kept in ascending order, each once.
pub struct FlagSet {
    names: Vec<Vec<u8>>,
}

impl View for FlagSet {
    type V = Set<Seq<u8>>;

    closed spec fn view(&self) -> Set<Seq<u8>> {
        Set::new(|n: Seq<u8>| keys_of(self.names@).to_set().contains(name_key(n)))
    }
}

impl FlagSet {
    #[verifier::type_invariant]
    spec fn ordered(self) -> bool {
        ascending(keys_of(self.names@))
    }

    /// The empty set.
    pub fn new() -> (r: Self)
        ensures
            r@ == Set::<Seq<u8>>::empty(),
    {
        let r = FlagSet { names: Vec::new() };
        assert(r@ =~= Set::<Seq<u8>>::empty()) by {
            assert(keys_of(r.names@).to_set() =~= Set::empty());
        }
        r
    }

    /// Tests whether the flag `name` is in the set.
    pub fn contains(&self, name: &[u8]) -> (r: bool)
        ensures
            r == self@.contains(name@),
    {
        let mut i: usize = 0;
        while i < self.names.len()
            invariant
                i <= self.names@.len(),
                forall|k: int| 0 <= k < i ==> self.names@[k]@ != name@,
            decreases self.names@.len() - i,
        {
            if crate::scan::slice_is(self.names[i].as_slice(), 0, self.names[i].len(), name) {
                proof {
                    assert(self.names@[i as int]@.subrange(0, self.names@[i as int]@.len() as int)
                        =~= self.names@[i as int]@);
                    assert(keys_of(self.names@)[i as int] == name_key(name@));
                }
                return true;
            }
            proof {
                assert(self.names@[i as int]@.subrange(0, self.names@[i as int]@.len() as int)
                    =~= self.names@[i as int]@);
            }
            i = i + 1;
        }
        proof {
            if keys_of(self.names@).to_set().contains(name_key(name@)) {
                let k = choose|k: int|
                    0 <= k < keys_of(self.names@).len() && keys_of(self.names@)[k] == name_key(
                        name@,
                    );
                assert(self.names@[k]@ == name@);
            }
        }
        false
    }

    /// Puts the flag `name` into the set, and says whether it was new.
    pub fn insert(&mut self, name: Vec<u8>) -> (r: bool)
        ensures
            final(self)@ == old(self)@.insert(name@),
            r == !old(self)@.contains(name@),
    {
        proof {
            use_type_invariant(&*self);
        }
        let was = self.contains(name.as_slice());
        let ghost before = keys_of(self.names@).to_set();
        let mut taken = FlagSet::new();
        core::mem::swap(self, &mut taken);
        let FlagSet { names: mut names } = taken;
        insert_sorted(&mut names, name);
        *self = FlagSet { names };
        proof {
            let after = keys_of(self.names@).to_set();
            assert(after == before.insert(name_key(name@)));
            assert forall|n: Seq<u8>| #[trigger]
                self@.contains(n) <==> old(self)@.insert(name@).contains(n) by {
                assert(name_key(n) == name_key(name@) <==> n == name@);
            }
            assert(self@ =~= old(self)@.insert(name@));
        }
        !was
    }

    /// A copy of the set.
    pub fn copy(&self) -> (r: Self)
        ensures
            r@ == self@,
    {
        proof {
            use_type_invariant(self);
        }
        let mut names: Vec<Vec<u8>> = Vec::new();
        let mut i: usize = 0;
        while i < self.names.len()
            invariant
                i <= self.names@.len(),
                names@.len() == i,
                forall|k: int| 0 <= k < i ==> names@[k]@ == self.names@[k]@,
            decreases self.names@.len() - i,
        {
            let name = &self.names[i];
            assert(name@.subrange(0, name@.len() as int) =~= name@);
            names.push(copy_range(name.as_slice(), 0, name.len()));
            i = i + 1;
        }
        assert(keys_of(names@) =~= keys_of(self.names@));
        FlagSet { names }
    }

    /// The names of the set in ascending order.
    pub fn names(&self) -> (r: Vec<Vec<u8>>)
        ensures
            ascending(keys_of(r@)),
            forall|n: Seq<u8>| self@.contains(n) <==> exists|i: int| 0 <= i < r@.len() && r@[i]@ == n,
    {
        proof {
            use_type_invariant(self);
        }
        let copy = self.copy();
        let ghost keys = keys_of(copy.names@);
        proof {
            use_type_invariant(&copy);
            assert forall|n: Seq<u8>| self@.contains(n) <==> exists|i: int|
                0 <= i < copy.names@.len() && copy.names@[i]@ == n by {
                if self@.contains(n) {
                    assert(copy@.contains(n));
                    let k = choose|k: int| 0 <= k < keys.len() && keys[k] == name_key(n);
                    assert(copy.names@[k]@ == n);
                }
                if exists|i: int| 0 <= i < copy.names@.len() && copy.names@[i]@ == n {
                    let i = choose|i: int| 0 <= i < copy.names@.len() && copy.names@[i]@ == n;
                    assert(keys[i] == name_key(n));
                    assert(keys.to_set().contains(name_key(n)));
                }
            }
        }
        let FlagSet { names } = copy;
        names
    }
}

} // verus!
