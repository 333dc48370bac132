//! A fixed-capacity, position-indexed container of optional elements, the
//! backing store of the wide interior tiers.

use vstd::prelude::*;

verus! {

/// A fixed-capacity container of `W` slots, each holding an optional element.
///
/// `push` places an element into the lowest empty slot, so positions freed by
/// `erase` are reused; the container is not a stack. Iteration is by slot
/// index in ascending order, not by insertion order.
pub struct VecArray<T, const W: usize> {
    storage: Vec<Option<T>>,
}

impl<T, const W: usize> View for VecArray<T, W> {
    type V = Seq<Option<T>>;

    closed spec fn view(&self) -> Seq<Option<T>> {
        self.storage@
    }
}

impl<T, const W: usize> VecArray<T, W> {
    /// All slots exist: the backing vector always holds exactly `W` slots.
    pub open spec fn wf(&self) -> bool {
        self@.len() == W
    }

    /// True if slot `i` holds an element.
    pub open spec fn occupied(&self, i: int) -> bool {
        0 <= i < self@.len() && self@[i] is Some
    }

    pub fn new() -> (r: Self)
        ensures
            r.wf(),
            forall|i: int| 0 <= i < W ==> r@[i] is None,
    {
        let mut storage: Vec<Option<T>> = Vec::new();
        let mut i: usize = 0;
        while i < W
            invariant
                i <= W,
                storage@.len() == i,
                forall|j: int| 0 <= j < i ==> storage@[j] is None,
            decreases W - i,
        {
            storage.push(None);
            i = i + 1;
        }
        VecArray { storage }
    }

    /// The tier's capacity `W`.
    pub fn capacity(&self) -> (r: usize)
        ensures
            r == W,
    {
        W
    }

    /// Place `value` at the lowest empty slot and return that slot's index.
    pub fn push(&mut self, value: T) -> (idx: usize)
        requires
            old(self).wf(),
            exists|i: int| 0 <= i < W && old(self)@[i] is None,
        ensures
            final(self).wf(),
            idx < W,
            old(self)@[idx as int] is None,
            forall|j: int| 0 <= j < idx ==> old(self)@[j] is Some,
            final(self)@ == old(self)@.update(idx as int, Some(value)),
    {
        let idx = self.first_free_pos();
        self.storage[idx] = Some(value);
        idx
    }

    /// Overwrite slot `i` with `value`.
    pub fn set(&mut self, i: usize, value: T)
        requires
            old(self).wf(),
            i < W,
        ensures
            final(self).wf(),
            final(self)@ == old(self)@.update(i as int, Some(value)),
    {
        self.storage[i] = Some(value);
    }

    /// A reference to the element in slot `i`, if the slot is in range and occupied.
    pub fn get(&self, i: usize) -> (r: Option<&T>)
        ensures
            match r {
                Some(v) => self.occupied(i as int) && self@[i as int] == Some(*v),
                None => !self.occupied(i as int),
            },
    {
        if i < self.storage.len() {
            self.storage[i].as_ref()
        } else {
            None
        }
    }

    /// A mutable reference to the element in slot `i`, if occupied.
    pub fn get_mut(&mut self, i: usize) -> (r: Option<&mut T>)
        requires
            old(self).wf(),
            i < W,
        ensures
            final(self).wf(),
            old(self)@[i as int] is None ==> r is None && final(self)@ == old(self)@,
            old(self)@[i as int] is Some ==> r is Some && *r.unwrap() == old(self)@[i as int].unwrap()
                && final(self)@ == old(self)@.update(i as int, Some(*final(r.unwrap()))),
    {
        let slot = &mut self.storage[i];
        slot.as_mut()
    }

    /// Take the element out of slot `i`, leaving the slot empty.
    pub fn erase(&mut self, i: usize) -> (r: Option<T>)
        requires
            old(self).wf(),
            i < W,
        ensures
            final(self).wf(),
            r == old(self)@[i as int],
            final(self)@ == old(self)@.update(i as int, None),
    {
        self.storage[i].take()
    }

    /// Empty every slot.
    pub fn clear(&mut self)
        requires
            old(self).wf(),
        ensures
            final(self).wf(),
            forall|i: int| 0 <= i < W ==> final(self)@[i] is None,
    {
        let mut i: usize = 0;
        while i < W
            invariant
                old(self).wf(),
                self.wf(),
                i <= W,
                forall|j: int| 0 <= j < i ==> self@[j] is None,
            decreases W - i,
        {
            self.storage[i] = None;
            i = i + 1;
        }
    }

    /// True if no slot holds an element.
    pub fn is_empty(&self) -> (r: bool)
        requires
            self.wf(),
        ensures
            r <==> forall|i: int| 0 <= i < W ==> self@[i] is None,
    {
        let mut i: usize = 0;
        while i < W
            invariant
                self.wf(),
                i <= W,
                forall|j: int| 0 <= j < i ==> self@[j] is None,
            decreases W - i,
        {
            if self.storage[i].is_some() {
                return false;
            }
            i = i + 1;
        }
        true
    }

    /// The lowest empty slot's index.
    pub fn first_free_pos(&self) -> (r: usize)
        requires
            self.wf(),
            exists|i: int| 0 <= i < W && self@[i] is None,
        ensures
            r < W,
            self@[r as int] is None,
            forall|j: int| 0 <= j < r ==> self@[j] is Some,
    {
        let mut i: usize = 0;
        while i < W
            invariant
                self.wf(),
                i <= W,
                exists|k: int| 0 <= k < W && self@[k] is None,
                forall|j: int| 0 <= j < i ==> self@[j] is Some,
            decreases W - i,
        {
            if self.storage[i].is_none() {
                return i;
            }
            i = i + 1;
        }
        proof {
            assert(forall|j: int| 0 <= j < W ==> self@[j] is Some);
            assert(false);
        }
        0
    }

    /// The highest occupied slot's index, if any slot is occupied.
    pub fn last_used_pos(&self) -> (r: Option<usize>)
        requires
            self.wf(),
        ensures
            match r {
                Some(i) => self.occupied(i as int) && forall|j: int| i < j < W ==> self@[j] is None,
                None => forall|j: int| 0 <= j < W ==> self@[j] is None,
            },
    {
        let mut i: usize = W;
        while i > 0
            invariant
                self.wf(),
                i <= W,
                forall|j: int| i <= j < W ==> self@[j] is None,
            decreases i,
        {
            i = i - 1;
            if self.storage[i].is_some() {
                return Some(i);
            }
        }
        None
    }

    /// Take the element out of the highest occupied slot.
    pub fn pop(&mut self) -> (r: Option<T>)
        requires
            old(self).wf(),
        ensures
            final(self).wf(),
            match r {
                Some(v) => exists|i: int| 0 <= i < W && old(self)@[i] == Some(v)
                    && final(self)@ == old(self)@.update(i, None)
                    && (forall|j: int| i < j < W ==> old(self)@[j] is None),
                None => final(self)@ == old(self)@
                    && forall|j: int| 0 <= j < W ==> old(self)@[j] is None,
            },
    {
        match self.last_used_pos() {
            Some(i) => self.storage[i].take(),
            None => None,
        }
    }

    /// A reference to the element in the highest occupied slot.
    pub fn last(&self) -> (r: Option<&T>)
        requires
            self.wf(),
        ensures
            match r {
                Some(v) => exists|i: int| 0 <= i < W && self@[i] == Some(*v)
                    && (forall|j: int| i < j < W ==> self@[j] is None),
                None => forall|j: int| 0 <= j < W ==> self@[j] is None,
            },
    {
        match self.last_used_pos() {
            Some(i) => self.storage[i].as_ref(),
            None => None,
        }
    }

    /// An occupied slot's element is a structural part of the container, so
    /// recursion from a container to an element it holds terminates.
    pub proof fn lemma_el_decreases(self, i: int)
        requires
            0 <= i < self@.len(),
            self@[i] is Some,
        ensures
            decreases_to!(self => self@[i].unwrap()),
    {
        assert(decreases_to!(self => self.storage));
        assert(decreases_to!(self.storage => self.storage[i]));
        assert(decreases_to!(self.storage[i] => self.storage@[i].unwrap()));
    }

    /// The occupied slot indexes, in ascending order.
    pub fn iter_keys(&self) -> (r: Vec<usize>)
        requires
            self.wf(),
        ensures
            forall|a: int, b: int| 0 <= a < b < r@.len() ==> r@[a] < r@[b],
            forall|a: int| 0 <= a < r@.len() ==> self.occupied(#[trigger] r@[a] as int),
            forall|i: int| 0 <= i < W && self@[i] is Some ==> r@.contains(i as usize),
    {
        let mut r: Vec<usize> = Vec::new();
        let mut i: usize = 0;
        while i < W
            invariant
                self.wf(),
                i <= W,
                forall|a: int, b: int| 0 <= a < b < r@.len() ==> r@[a] < r@[b],
                forall|a: int| 0 <= a < r@.len() ==> self.occupied(#[trigger] r@[a] as int) && r@[a] < i,
                forall|j: int| 0 <= j < i && self@[j] is Some ==> r@.contains(j as usize),
            decreases W - i,
        {
            if self.storage[i].is_some() {
                let ghost before = r@;
                r.push(i);
                proof {
                    assert(r@[before.len() as int] == i);
                    assert forall|j: int| 0 <= j < i + 1 && self@[j] is Some implies r@.contains(
                        j as usize,
                    ) by {
                        if j < i {
                            let a = choose|a: int| 0 <= a < before.len() && before[a] == j as usize;
                            assert(r@[a] == j as usize);
                        } else {
                            assert(r@[before.len() as int] == j as usize);
                        }
                    }
                }
            }
            i = i + 1;
        }
        r
    }

    /// The occupied slots as `(index, element)` pairs, in ascending index order.
    pub fn iter(&self) -> (r: Vec<(usize, &T)>)
        requires
            self.wf(),
        ensures
            forall|a: int, b: int| 0 <= a < b < r@.len() ==> r@[a].0 < r@[b].0,
            forall|a: int| 0 <= a < r@.len() ==> self.occupied(#[trigger] r@[a].0 as int)
                && self@[r@[a].0 as int] == Some(*r@[a].1),
            forall|i: int| 0 <= i < W && self@[i] is Some ==> exists|a: int|
                0 <= a < r@.len() && #[trigger] r@[a].0 == i,
    {
        let mut r: Vec<(usize, &T)> = Vec::new();
        let mut i: usize = 0;
        while i < W
            invariant
                self.wf(),
                i <= W,
                forall|a: int, b: int| 0 <= a < b < r@.len() ==> r@[a].0 < r@[b].0,
                forall|a: int| 0 <= a < r@.len() ==> self.occupied(#[trigger] r@[a].0 as int)
                    && self@[r@[a].0 as int] == Some(*r@[a].1) && r@[a].0 < i,
                forall|j: int| 0 <= j < i && self@[j] is Some ==> exists|a: int|
                    0 <= a < r@.len() && #[trigger] r@[a].0 == j,
            decreases W - i,
        {
            match self.storage[i].as_ref() {
                Some(v) => {
                    let ghost before = r@;
                    r.push((i, v));
                    proof {
                        assert(r@[before.len() as int].0 == i);
                        assert forall|j: int| 0 <= j < i + 1 && self@[j] is Some implies exists|
                            a: int,
                        | 0 <= a < r@.len() && #[trigger] r@[a].0 == j by {
                            if j < i {
                                let a = choose|a: int| 0 <= a < before.len() && #[trigger] before[a].0 == j;
                                assert(r@[a].0 == j);
                            } else {
                                assert(r@[before.len() as int].0 == j);
                            }
                        }
                    }
                }
                None => {}
            }
            i = i + 1;
        }
        r
    }
}

} // verus!
