//! A set kept as a sorted vector.
use vstd::prelude::*;
use crate::util::order::{comparable, lawful, lemma_order, lt_holds, precedes, same_rank};

verus! {

/// Whether each element of `s` comes before all that follow it.
pub open spec fn increasing<T: Ord>(s: Seq<T>) -> bool {
    forall|i: int, j: int| 0 <= i < j < s.len() ==> precedes(#[trigger] s[i], #[trigger] s[j])
}

/// Whether `s` holds an element of the rank of `value`.
pub open spec fn holds<T: Ord>(s: Seq<T>, value: T) -> bool {
    exists|i: int| 0 <= i < s.len() && same_rank(#[trigger] s[i], value)
}

/// Whether `index` is where `value` belongs in `s`: all before it come
/// before `value`, and `value` comes before all from there on.
pub open spec fn belongs_at<T: Ord>(s: Seq<T>, value: T, index: int) -> bool {
    &&& 0 <= index <= s.len()
    &&& forall|j: int| 0 <= j < index ==> precedes(#[trigger] s[j], value)
    &&& forall|j: int| index <= j < s.len() ==> precedes(value, #[trigger] s[j])
}

/// A set of values of an ordered type, held in a vector in increasing
/// order, so that no two elements have the same rank. What is said of it
/// holds for every type whose order is lawful.
pub struct SortedVecSet<T: Ord>(Vec<T>);

impl<T: Ord> View for SortedVecSet<T> {
    type V = Seq<T>;

    /// The elements in increasing order.
    closed spec fn view(&self) -> Seq<T> {
        self.0@
    }
}

impl<T: Ord> Default for SortedVecSet<T> {
    fn default() -> (set: SortedVecSet<T>)
        ensures
            set@ == Seq::<T>::empty(),
    {
        SortedVecSet::new()
    }
}

impl<T: Ord> SortedVecSet<T> {
    #[verifier::type_invariant]
    pub closed spec fn wf(&self) -> bool {
        lawful::<T>() ==> increasing(self.0@)
    }

    /// A set of a lawfully ordered type is in increasing order.
    pub proof fn lemma_increasing(&self)
        requires
            self.wf(),
            lawful::<T>(),
        ensures
            increasing(self@),
    {
    }

    /// The empty set.
    pub fn new() -> (set: SortedVecSet<T>)
        ensures
            set@ == Seq::<T>::empty(),
            set.wf(),
    {
        SortedVecSet(Vec::new())
    }

    /// The empty set, with room for `capacity` elements.
    pub fn with_capacity(capacity: usize) -> (set: SortedVecSet<T>)
        ensures
            set@ == Seq::<T>::empty(),
            set.wf(),
    {
        SortedVecSet(Vec::with_capacity(capacity))
    }

    /// The elements in increasing order.
    pub fn as_slice(&self) -> (slice: &[T])
        ensures
            slice@ == self@,
            lawful::<T>() ==> increasing(slice@),
    {
        proof {
            use_type_invariant(self);
        }
        self.0.as_slice()
    }

    /// Looks `value` up: `Ok` with the index of the element of its rank, or
    /// `Err` with the index where it belongs.
    fn search(&self, value: &T) -> (r: Result<usize, usize>)
        ensures
            match r {
                Ok(index) => index < self@.len() && (lawful::<T>() ==> same_rank(
                    self@[index as int],
                    *value,
                )),
                Err(index) => index <= self@.len() && (lawful::<T>() ==> belongs_at(
                    self@,
                    *value,
                    index as int,
                )),
            },
    {
        proof {
            use_type_invariant(self);
            if lawful::<T>() {
                lemma_order::<T>();
            }
        }
        let mut low: usize = 0;
        let mut high: usize = self.0.len();
        while low < high
            invariant
                low <= high <= self.0@.len(),
                lawful::<T>() ==> increasing(self.0@),
                lawful::<T>() ==> comparable::<T>(),
                lawful::<T>() ==> forall|a: T, b: T| #[trigger] lt_holds(a, b) <==> precedes(a, b),
                lawful::<T>() ==> forall|a: T, b: T|
                    #![trigger precedes(a, b)]
                    #![trigger same_rank(a, b)]
                    (precedes(a, b) || same_rank(a, b) || precedes(b, a)),
                lawful::<T>() ==> forall|a: T, b: T, c: T|
                    precedes(a, b) && #[trigger] precedes(b, c) ==> #[trigger] precedes(a, c),
                lawful::<T>() ==> forall|j: int| 0 <= j < low ==> precedes(#[trigger] self.0@[j], *value),
                lawful::<T>() ==> forall|j: int|
                    high <= j < self.0@.len() ==> precedes(*value, #[trigger] self.0@[j]),
            decreases high - low,
        {
            let mid = low + (high - low) / 2;
            let probe = &self.0[mid];
            if *probe < *value {
                proof {
                    if lawful::<T>() {
                        assert(lt_holds(*probe, *value));
                        assert forall|j: int| 0 <= j < mid + 1 implies precedes(
                            #[trigger] self.0@[j],
                            *value,
                        ) by {
                            if j < mid {
                                assert(precedes(self.0@[j], self.0@[mid as int]));
                            }
                        }
                    }
                }
                low = mid + 1;
            } else if *value < *probe {
                proof {
                    if lawful::<T>() {
                        assert(lt_holds(*value, *probe));
                        assert forall|j: int| mid <= j < self.0@.len() implies precedes(
                            *value,
                            #[trigger] self.0@[j],
                        ) by {
                            if j > mid {
                                assert(precedes(self.0@[mid as int], self.0@[j]));
                            }
                        }
                    }
                }
                high = mid;
            } else {
                proof {
                    if lawful::<T>() {
                        assert(!lt_holds(*probe, *value));
                        assert(!lt_holds(*value, *probe));
                        assert(precedes(*probe, *value) || same_rank(*probe, *value) || precedes(
                            *value,
                            *probe,
                        ));
                    }
                }
                return Ok(mid);
            }
        }
        Err(low)
    }

    /// Adds `value` unless the set holds an element of its rank, and tells
    /// whether it was added.
    pub fn insert(&mut self, value: T) -> (added: bool)
        ensures
            final(self).wf(),
            lawful::<T>() ==> added == !holds(old(self)@, value),
            !added ==> final(self)@ == old(self)@,
            added ==> exists|index: int|
                0 <= index <= old(self)@.len() && (lawful::<T>() ==> belongs_at(old(self)@, value, index))
                    && #[trigger] old(self)@.insert(index, value) == final(self)@,
            lawful::<T>() ==> increasing(final(self)@),
    {
        proof {
            use_type_invariant(&*self);
            if lawful::<T>() {
                lemma_order::<T>();
            }
        }
        match self.search(&value) {
            Ok(index) => {
                assert(lawful::<T>() ==> holds(self@, value));
                false
            },
            Err(index) => {
                let ghost before = self.0@;
                proof {
                    if lawful::<T>() {
                        assert forall|i: int| 0 <= i < before.len() implies !same_rank(
                            #[trigger] before[i],
                            value,
                        ) by {
                            if i < index {
                                assert(precedes(before[i], value));
                            } else {
                                assert(precedes(value, before[i]));
                            }
                        }
                        let after = before.insert(index as int, value);
                        assert forall|i: int, j: int| 0 <= i < j < after.len() implies precedes(
                            #[trigger] after[i],
                            #[trigger] after[j],
                        ) by {
                            if j < index {
                                assert(precedes(before[i], before[j]));
                            } else if j == index {
                                assert(precedes(before[i], value));
                            } else if i < index {
                                assert(precedes(before[i], before[j - 1]));
                            } else if i == index {
                                assert(precedes(value, before[j - 1]));
                            } else {
                                assert(precedes(before[i - 1], before[j - 1]));
                            }
                        }
                    }
                }
                let mut items: Vec<T> = Vec::new();
                std::mem::swap(&mut self.0, &mut items);
                items.insert(index, value);
                self.0 = items;
                assert(before.insert(index as int, value) == self@);
                true
            },
        }
    }

    /// Tells whether the set holds an element of the rank of `value`.
    pub fn contains(&self, value: &T) -> (found: bool)
        ensures
            lawful::<T>() ==> found == holds(self@, *value),
    {
        proof {
            if lawful::<T>() {
                lemma_order::<T>();
            }
        }
        match self.search(value) {
            Ok(index) => {
                assert(lawful::<T>() ==> holds(self@, *value));
                true
            },
            Err(index) => {
                proof {
                    if lawful::<T>() {
                        let s = self@;
                        assert forall|i: int| 0 <= i < s.len() implies !same_rank(#[trigger] s[i], *value) by {
                            if i < index {
                                assert(precedes(s[i], *value));
                            } else {
                                assert(precedes(*value, s[i]));
                            }
                        }
                    }
                }
                false
            },
        }
    }

    /// Takes out the element of the rank of `value`, if the set holds one,
    /// and tells whether it did.
    pub fn remove(&mut self, value: &T) -> (removed: bool)
        ensures
            final(self).wf(),
            lawful::<T>() ==> removed == holds(old(self)@, *value),
            !removed ==> final(self)@ == old(self)@,
            removed ==> exists|index: int|
                0 <= index < old(self)@.len() && (lawful::<T>() ==> same_rank(old(self)@[index], *value))
                    && #[trigger] old(self)@.remove(index) == final(self)@,
            lawful::<T>() ==> increasing(final(self)@),
            lawful::<T>() ==> !holds(final(self)@, *value),
    {
        proof {
            use_type_invariant(&*self);
            if lawful::<T>() {
                lemma_order::<T>();
            }
        }
        match self.search(value) {
            Ok(index) => {
                let ghost before = self.0@;
                proof {
                    if lawful::<T>() {
                        assert(holds(before, *value));
                        let after = before.remove(index as int);
                        assert forall|i: int, j: int| 0 <= i < j < after.len() implies precedes(
                            #[trigger] after[i],
                            #[trigger] after[j],
                        ) by {
                            let from = if i < index {
                                i
                            } else {
                                i + 1
                            };
                            let to = if j < index {
                                j
                            } else {
                                j + 1
                            };
                            assert(precedes(before[from], before[to]));
                        }
                        assert forall|i: int| 0 <= i < after.len() implies !same_rank(
                            #[trigger] after[i],
                            *value,
                        ) by {
                            if i < index {
                                assert(precedes(before[i], before[index as int]));
                            } else {
                                assert(precedes(before[index as int], before[i + 1]));
                            }
                        }
                    }
                }
                let mut items: Vec<T> = Vec::new();
                std::mem::swap(&mut self.0, &mut items);
                items.remove(index);
                self.0 = items;
                assert(before.remove(index as int) == self@);
                true
            },
            Err(index) => {
                proof {
                    if lawful::<T>() {
                        let s = self@;
                        assert forall|i: int| 0 <= i < s.len() implies !same_rank(#[trigger] s[i], *value) by {
                            if i < index {
                                assert(precedes(s[i], *value));
                            } else {
                                assert(precedes(*value, s[i]));
                            }
                        }
                    }
                }
                false
            },
        }
    }

    /// The elements in increasing order, the set given up.
    pub fn into_vec(self) -> (elements: Vec<T>)
        ensures
            elements@ == self@,
            lawful::<T>() ==> increasing(elements@),
    {
        proof {
            use_type_invariant(&self);
        }
        self.0
    }
}

impl<T: Ord> AsRef<[T]> for SortedVecSet<T> {
    fn as_ref(&self) -> (slice: &[T])
        ensures
            slice@ == self@,
    {
        self.as_slice()
    }
}

} // verus!
