//! Checks for taking several elements of a slice at once.
use vstd::prelude::*;

verus! {

/// Why several elements cannot be borrowed from a slice at once.
#[derive(Debug, Clone, Copy, PartialEq, Eq, Structural)]
pub enum MultiIndexError {
    /// The index given is past the end of the slice.
    OutOfBounds(usize),
}

/// Why several elements cannot be borrowed mutably from a slice at once.
#[derive(Debug, Clone, Copy, PartialEq, Eq, Structural)]
pub enum MultiIndexMutError {
    /// There are more indices than the slice has elements; the count of
    /// elements is given.
    OutOfBounds(usize),
    /// The index given occurs twice.
    Alias(usize),
}

impl MultiIndexError {
    /// What is shown for this error.
    pub fn message(&self) -> (s: String)
        ensures
            s@ == "index out of bounds"@,
    {
        "index out of bounds".to_owned()
    }
}

impl MultiIndexMutError {
    /// What is shown for this error.
    pub open spec fn spec_message(&self) -> Seq<char> {
        match self {
            MultiIndexMutError::OutOfBounds(_) => "index out of bounds"@,
            MultiIndexMutError::Alias(_) => "aliased index"@,
        }
    }

    /// What is shown for this error.
    pub fn message(&self) -> (s: String)
        ensures
            s@ == self.spec_message(),
    {
        match self {
            MultiIndexMutError::OutOfBounds(_) => "index out of bounds".to_owned(),
            MultiIndexMutError::Alias(_) => "aliased index".to_owned(),
        }
    }
}

/// The first of `indices` that a slice of `len` elements does not have, if
/// there is one.
pub open spec fn first_out_of_bounds(len: usize, indices: Seq<usize>) -> Option<MultiIndexError>
    decreases indices.len(),
{
    if indices.len() == 0 {
        None
    } else if indices[0] >= len {
        Some(MultiIndexError::OutOfBounds(indices[0]))
    } else {
        first_out_of_bounds(len, indices.skip(1))
    }
}

/// Checks that a slice of `len` elements has every one of `indices`, and
/// reports the first that it lacks.
pub fn check_multi_index(len: usize, indices: &[usize]) -> (r: Option<MultiIndexError>)
    ensures
        r == first_out_of_bounds(len, indices@),
        r is None <==> forall|i: int| 0 <= i < indices@.len() ==> indices@[i] < len,
{
    let mut i: usize = 0;
    assert(indices@.skip(0) =~= indices@);
    while i < indices.len()
        invariant
            i <= indices@.len(),
            first_out_of_bounds(len, indices@) == first_out_of_bounds(len, indices@.skip(i as int)),
            forall|j: int| 0 <= j < i ==> indices@[j] < len,
        decreases indices.len() - i,
    {
        let index = indices[i];
        assert(indices@.skip(i as int)[0] == index);
        if index >= len {
            return Some(MultiIndexError::OutOfBounds(index));
        }
        assert(indices@.skip(i as int).skip(1) =~= indices@.skip(i + 1));
        i += 1;
    }
    None
}

/// Checks that a slice of `len` elements can hand out as many elements as
/// there are `indices`: with more indices than elements it reports the
/// count of elements as out of bounds. It looks at the number of indices
/// only, not at their values.
pub fn check_multi_index_mut(len: usize, indices: &[usize]) -> (r: Option<MultiIndexMutError>)
    ensures
        r == if indices@.len() > len {
            Some(MultiIndexMutError::OutOfBounds(len))
        } else {
            None
        },
{
    let mut i: usize = 0;
    while i < indices.len()
        invariant
            i <= indices@.len(),
            i <= len,
        decreases indices.len() - i,
    {
        if i >= len {
            return Some(MultiIndexMutError::OutOfBounds(i));
        }
        let mut j: usize = i + 1;
        while j < indices.len()
            invariant
                i < j <= indices@.len(),
            decreases indices.len() - j,
        {
            if i == j {
                return Some(MultiIndexMutError::Alias(i));
            }
            j += 1;
        }
        i += 1;
    }
    None
}

/// Whether every one of `indices` is an index of a slice of `len`
/// elements.
pub open spec fn in_bounds(len: nat, indices: Seq<usize>) -> bool {
    forall|k: int| 0 <= k < indices.len() ==> (#[trigger] indices[k]) < len
}

/// The element of `slice` at `index`.
fn element<'a, T>(slice: &'a [T], index: usize) -> (item: &'a T)
    requires
        index < slice@.len(),
    ensures
        *item == slice@[index as int],
{
    &slice[index]
}

/// The elements of `slice` at `indices`, in the order of the indices. This
/// is `array::map` with [`element`] as the function: the result holds, for
/// each index, what the function gives for it.
#[verifier::external_body]
fn pick<'a, T, const N: usize>(slice: &'a [T], indices: [usize; N]) -> (items: [&'a T; N])
    requires
        in_bounds(slice@.len(), indices@),
    ensures
        forall|k: int| 0 <= k < N ==> *(#[trigger] items@[k]) == slice@[indices@[k] as int],
{
    indices.map(|index| element(slice, index))
}

/// The elements of `slice` at `indices`, or the first of the indices that
/// the slice lacks.
pub fn multi_index<'a, T, const N: usize>(slice: &'a [T], indices: [usize; N]) -> (r: Result<
    [&'a T; N],
    MultiIndexError,
>)
    ensures
        match r {
            Ok(items) => in_bounds(slice@.len(), indices@) && forall|k: int|
                0 <= k < N ==> *(#[trigger] items@[k]) == slice@[indices@[k] as int],
            Err(error) => first_out_of_bounds(slice.len(), indices@) == Some(error),
        },
{
    if let Some(error) = check_multi_index(slice.len(), indices.as_slice()) {
        return Err(error);
    }
    Ok(pick(slice, indices))
}

/// Whether no two of `indices` are the same.
pub open spec fn distinct(indices: Seq<usize>) -> bool {
    forall|j: int, k: int| 0 <= j < k < indices.len() ==> #[trigger] indices[j] != #[trigger] indices[k]
}

/// Whether a slice of `len` elements can hand out its elements at
/// `indices`: every index is in bounds, and no two are the same.
pub open spec fn usable(len: nat, indices: Seq<usize>) -> bool {
    in_bounds(len, indices) && distinct(indices)
}

/// The first of `indices` that the slice lacks or that occurs a second
/// time, with what is wrong with it.
pub open spec fn first_unusable(len: usize, indices: Seq<usize>, upto: int) -> Option<MultiIndexMutError>
    decreases upto,
{
    if upto <= 0 {
        None
    } else {
        match first_unusable(len, indices, upto - 1) {
            Some(error) => Some(error),
            None => if indices[upto - 1] >= len {
                Some(MultiIndexMutError::OutOfBounds(indices[upto - 1]))
            } else if indices.take(upto - 1).contains(indices[upto - 1]) {
                Some(MultiIndexMutError::Alias(indices[upto - 1]))
            } else {
                None
            },
        }
    }
}

/// The elements of `slice` at `indices`, to be changed in place. This is
/// `slice::get_disjoint_mut`, which hands the elements out where every
/// index is in bounds and no two are the same, and nothing else.
#[verifier::external_body]
fn pick_mut<'a, T, const N: usize>(slice: &'a mut [T], indices: [usize; N]) -> (items: Option<[&'a mut T; N]>)
    ensures
        items is Some <==> usable(old(slice)@.len(), indices@),
        items matches Some(found) ==> forall|k: int|
            0 <= k < N ==> *(#[trigger] found@[k]) == old(slice)@[indices@[k] as int],
{
    slice.get_disjoint_mut(indices).ok()
}

/// Finds the first of `indices` that cannot be handed out.
pub fn check_disjoint(len: usize, indices: &[usize]) -> (r: Option<MultiIndexMutError>)
    ensures
        r == first_unusable(len, indices@, indices@.len() as int),
        r is None <==> in_bounds(len as nat, indices@) && distinct(indices@),
{
    let mut i: usize = 0;
    while i < indices.len()
        invariant
            i <= indices@.len(),
            first_unusable(len, indices@, i as int) is None,
            forall|k: int| 0 <= k < i ==> (#[trigger] indices@[k]) < len,
            forall|j: int, k: int| 0 <= j < k < i ==> #[trigger] indices@[j] != #[trigger] indices@[k],
        decreases indices.len() - i,
    {
        let index = indices[i];
        if index >= len {
            proof {
                lemma_unusable(len, indices@, i + 1, indices@.len() as int);
            }
            return Some(MultiIndexMutError::OutOfBounds(index));
        }
        let mut j: usize = 0;
        while j < i
            invariant
                j <= i < indices@.len(),
                index == indices@[i as int],
                index < len,
                first_unusable(len, indices@, i as int) is None,
                forall|k: int| 0 <= k < j ==> #[trigger] indices@[k] != index,
            decreases i - j,
        {
            if indices[j] == index {
                proof {
                    assert(indices@.take(i as int)[j as int] == index);
                    assert(indices@.take(i as int).contains(index));
                    assert(first_unusable(len, indices@, i + 1) == Some(MultiIndexMutError::Alias(index)));
                    lemma_unusable(len, indices@, i + 1, indices@.len() as int);
                }
                return Some(MultiIndexMutError::Alias(index));
            }
            j += 1;
        }
        proof {
            assert(!indices@.take(i as int).contains(index)) by {
                if indices@.take(i as int).contains(index) {
                    let k = choose|k: int| 0 <= k < i && indices@.take(i as int)[k] == index;
                    assert(indices@[k] == index);
                }
            }
        }
        i += 1;
    }
    None
}

proof fn lemma_unusable(len: usize, indices: Seq<usize>, n: int, upto: int)
    requires
        0 <= n <= upto,
        first_unusable(len, indices, n) is Some,
    ensures
        first_unusable(len, indices, upto) == first_unusable(len, indices, n),
    decreases upto - n,
{
    if n < upto {
        lemma_unusable(len, indices, n, upto - 1);
    }
}

/// What taking the elements at `indices` mutably fails with, if it fails:
/// with more indices than elements, the count of elements as out of
/// bounds; else the first index that is out of bounds or occurs a second
/// time.
pub open spec fn mut_error(len: usize, indices: Seq<usize>) -> Option<MultiIndexMutError> {
    if indices.len() > len {
        Some(MultiIndexMutError::OutOfBounds(len))
    } else {
        first_unusable(len, indices, indices.len() as int)
    }
}

/// The elements of `slice` at `indices`, to be changed in place, or why
/// they cannot be handed out.
pub fn multi_index_mut<'a, T, const N: usize>(slice: &'a mut [T], indices: [usize; N]) -> (r: Result<
    [&'a mut T; N],
    MultiIndexMutError,
>)
    ensures
        match r {
            Ok(items) => usable(old(slice)@.len(), indices@) && forall|k: int|
                0 <= k < N ==> *(#[trigger] items@[k]) == old(slice)@[indices@[k] as int],
            Err(error) => mut_error(old(slice).len(), indices@) == Some(error),
        },
{
    if let Some(error) = check_multi_index_mut(slice.len(), indices.as_slice()) {
        return Err(error);
    }
    if let Some(error) = check_disjoint(slice.len(), indices.as_slice()) {
        return Err(error);
    }
    match pick_mut(slice, indices) {
        Some(items) => Ok(items),
        None => {
            assert(false);
            Err(MultiIndexMutError::OutOfBounds(0))
        },
    }
}

/// Taking several elements of a sequence at once.
pub trait SliceExt {
    type Item;

    /// The elements as a sequence.
    spec fn items(&self) -> Seq<Self::Item>;

    /// The elements at `indices`, or the first of the indices that is out
    /// of bounds.
    fn multi_index<const N: usize>(&self, indices: [usize; N]) -> (r: Result<[&Self::Item; N], MultiIndexError>)
        ensures
            match r {
                Ok(found) => in_bounds(self.items().len(), indices@) && forall|k: int|
                    0 <= k < N ==> *(#[trigger] found@[k]) == self.items()[indices@[k] as int],
                Err(error) => first_out_of_bounds(self.items().len() as usize, indices@) == Some(error)
                    && self.items().len() <= usize::MAX,
            },
    ;

    /// The elements at `indices`, to be changed in place, or the first of
    /// the indices that is out of bounds or occurs a second time.
    fn multi_index_mut<const N: usize>(&mut self, indices: [usize; N]) -> (r: Result<
        [&mut Self::Item; N],
        MultiIndexMutError,
    >)
        ensures
            match r {
                Ok(found) => usable(old(self).items().len(), indices@) && forall|k: int|
                    0 <= k < N ==> *(#[trigger] found@[k]) == old(self).items()[indices@[k] as int],
                Err(error) => mut_error(old(self).items().len() as usize, indices@) == Some(error) && old(
                    self,
                ).items().len() <= usize::MAX,
            },
    ;
}

impl<T> SliceExt for [T] {
    type Item = T;

    open spec fn items(&self) -> Seq<T> {
        self@
    }

    fn multi_index<const N: usize>(&self, indices: [usize; N]) -> (r: Result<[&T; N], MultiIndexError>) {
        self::multi_index(self, indices)
    }

    fn multi_index_mut<const N: usize>(&mut self, indices: [usize; N]) -> (r: Result<
        [&mut T; N],
        MultiIndexMutError,
    >) {
        self::multi_index_mut(self, indices)
    }
}

impl<T> SliceExt for Vec<T> {
    type Item = T;

    open spec fn items(&self) -> Seq<T> {
        self@
    }

    fn multi_index<const N: usize>(&self, indices: [usize; N]) -> (r: Result<[&T; N], MultiIndexError>) {
        self::multi_index(self.as_slice(), indices)
    }

    fn multi_index_mut<const N: usize>(&mut self, indices: [usize; N]) -> (r: Result<
        [&mut T; N],
        MultiIndexMutError,
    >) {
        self::multi_index_mut(self.as_mut_slice(), indices)
    }
}

} // verus!
