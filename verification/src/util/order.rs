//! The order of a type, as contracts speak of it.
use vstd::prelude::*;
use vstd::std_specs::cmp::{OrdSpec, PartialEqSpec, PartialOrdSpec};
use std::cmp::Ordering;

verus! {

/// Whether the comparisons of `T` are those of a total order, and its
/// operators agree with them.
pub open spec fn lawful<T: Ord>() -> bool {
    vstd::laws_cmp::obeys_cmp::<T>()
}

/// Whether `a` comes before `b` in the order of `T`.
pub open spec fn precedes<T: Ord>(a: T, b: T) -> bool {
    a.cmp_spec(&b) == Ordering::Less
}

/// Whether `a` and `b` have the same place in the order of `T`.
pub open spec fn same_rank<T: Ord>(a: T, b: T) -> bool {
    a.cmp_spec(&b) == Ordering::Equal
}

/// Whether the operators `<`, `<=`, `>` and `>=` of `T` compute what the
/// order of `T` says.
pub open spec fn comparable<T: PartialOrd>() -> bool {
    T::obeys_partial_cmp_spec()
}

/// What `a < b` computes where `T` is comparable.
pub open spec fn lt_holds<T: PartialOrd>(a: T, b: T) -> bool {
    a.partial_cmp_spec(&b) == Some(Ordering::Less)
}

/// In a lawful order `<` tells which of two values comes first, of any two
/// values exactly one comes first or they have the same rank, and coming
/// first is transitive.
pub proof fn lemma_order<T: Ord>()
    requires
        lawful::<T>(),
    ensures
        comparable::<T>(),
        forall|a: T, b: T| #[trigger] lt_holds(a, b) <==> precedes(a, b),
        forall|a: T, b: T|
            #![trigger precedes(a, b)]
            #![trigger same_rank(a, b)]
            (precedes(a, b) || same_rank(a, b) || precedes(b, a)) && !(precedes(a, b) && same_rank(a, b))
                && !(precedes(a, b) && precedes(b, a)) && !(same_rank(a, b) && precedes(b, a)),
        forall|a: T, b: T, c: T| precedes(a, b) && #[trigger] precedes(b, c) ==> #[trigger] precedes(a, c),
        forall|a: T, b: T| #[trigger] same_rank(a, b) ==> same_rank(b, a),
        forall|a: T, b: T, c: T| same_rank(a, b) && #[trigger] same_rank(b, c) ==> #[trigger] same_rank(a, c),
{
    reveal(vstd::laws_eq::obeys_eq_spec_properties);
    reveal(vstd::laws_cmp::obeys_cmp_partial_ord);
    reveal(vstd::laws_cmp::obeys_cmp_ord);
    reveal(vstd::laws_cmp::obeys_partial_cmp_spec_properties);
    assert forall|a: T, b: T| #[trigger] lt_holds(a, b) <==> precedes(a, b) by {
        assert(a.partial_cmp_spec(&b) == Some(a.cmp_spec(&b)));
    }
    assert forall|a: T, b: T|
        #![trigger precedes(a, b)]
        #![trigger same_rank(a, b)]
        (precedes(a, b) || same_rank(a, b) || precedes(b, a)) && !(precedes(a, b) && same_rank(a, b)) && !(
        precedes(a, b) && precedes(b, a)) && !(same_rank(a, b) && precedes(b, a)) by {
        assert(a.partial_cmp_spec(&b) == Some(a.cmp_spec(&b)));
        assert(b.partial_cmp_spec(&a) == Some(b.cmp_spec(&a)));
    }
    assert forall|a: T, b: T, c: T| precedes(a, b) && #[trigger] precedes(b, c) implies #[trigger] precedes(
        a,
        c,
    ) by {
        assert(a.partial_cmp_spec(&b) == Some(a.cmp_spec(&b)));
        assert(b.partial_cmp_spec(&c) == Some(b.cmp_spec(&c)));
        assert(a.partial_cmp_spec(&c) == Some(a.cmp_spec(&c)));
    }
    assert forall|a: T, b: T| #[trigger] same_rank(a, b) implies same_rank(b, a) by {
        assert(a.partial_cmp_spec(&b) == Some(a.cmp_spec(&b)));
        assert(b.partial_cmp_spec(&a) == Some(b.cmp_spec(&a)));
        assert(a.eq_spec(&b));
        assert(b.eq_spec(&a));
    }
    assert forall|a: T, b: T, c: T| same_rank(a, b) && #[trigger] same_rank(b, c) implies #[trigger] same_rank(
        a,
        c,
    ) by {
        assert(a.partial_cmp_spec(&b) == Some(a.cmp_spec(&b)));
        assert(b.partial_cmp_spec(&c) == Some(b.cmp_spec(&c)));
        assert(a.partial_cmp_spec(&c) == Some(a.cmp_spec(&c)));
        assert(a.eq_spec(&b));
        assert(b.eq_spec(&c));
        assert(a.eq_spec(&c));
    }
}

/// The order of the unsigned 32-bit integers is lawful, and is that of the
/// numbers.
pub proof fn lemma_order_u32()
    ensures
        lawful::<u32>(),
        forall|a: u32, b: u32| #[trigger] precedes(a, b) <==> a < b,
        forall|a: u32, b: u32| #[trigger] same_rank(a, b) <==> a == b,
{
    broadcast use vstd::laws_cmp::group_laws_cmp;

}

/// Whether the key `a` of year and day comes before `b`: an earlier year,
/// or the same year and an earlier day.
pub open spec fn key_before(a: (u32, u32), b: (u32, u32)) -> bool {
    a.0 < b.0 || (a.0 == b.0 && a.1 < b.1)
}

/// The order of pairs of unsigned 32-bit integers is lawful, and is the
/// order by the first number and then by the second.
pub proof fn lemma_order_keys()
    ensures
        lawful::<(u32, u32)>(),
        forall|a: (u32, u32), b: (u32, u32)| #[trigger] precedes(a, b) <==> key_before(a, b),
        forall|a: (u32, u32), b: (u32, u32)| #[trigger] same_rank(a, b) <==> a == b,
{
    broadcast use vstd::laws_cmp::group_laws_cmp;

}

/// What vstd says of a sequence of keys that a map in key order hands out,
/// in the words of this module: each key comes before all that follow.
pub proof fn lemma_increasing_keys(keys: Seq<(u32, u32)>)
    requires
        vstd::std_specs::btree::increasing_seq(keys),
    ensures
        forall|i: int, j: int| 0 <= i < j < keys.len() ==> key_before(#[trigger] keys[i], #[trigger] keys[j]),
{
    broadcast use vstd::laws_cmp::group_laws_cmp;
    broadcast use vstd::std_specs::btree::axiom_increasing_seq_meaning;

    lemma_order_keys();
    assert forall|i: int, j: int| 0 <= i < j < keys.len() implies key_before(
        #[trigger] keys[i],
        #[trigger] keys[j],
    ) by {
        assert(precedes(keys[i], keys[j]));
    }
}

/// The operator `<` on 64-bit integers tells which number is less.
pub proof fn lemma_order_i64()
    ensures
        comparable::<i64>(),
        forall|a: i64, b: i64| #[trigger] lt_holds(a, b) <==> a < b,
{
    broadcast use vstd::laws_cmp::group_laws_cmp;

}

} // verus!
