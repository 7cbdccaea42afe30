//! Keys that are compared for equality.

use vstd::prelude::*;
use vstd::std_specs::cmp::PartialEqSpec;

verus! {

/// `==` accepts the two keys as equal.
pub open spec fn same<K: PartialEq>(a: K, b: K) -> bool {
    a.eq_spec(&b)
}

/// `==` on the keys is an equivalence relation, as `Eq` asks for.
#[verifier::opaque]
pub open spec fn lawful<K: PartialEq>() -> bool {
    &&& K::obeys_eq_spec()
    &&& forall|a: K| #[trigger] same(a, a)
    &&& forall|a: K, b: K| #[trigger] same(a, b) ==> same(b, a)
    &&& forall|a: K, b: K, c: K| #[trigger] same(a, b) && #[trigger] same(b, c) ==> same(a, c)
}

/// What `==` computes is what [`same`] says.
pub proof fn lemma_obeys<K: PartialEq>()
    requires
        lawful::<K>(),
    ensures
        K::obeys_eq_spec(),
{
    reveal(lawful);
}

pub proof fn lemma_reflexive<K: PartialEq>(a: K)
    requires
        lawful::<K>(),
    ensures
        same(a, a),
{
    reveal(lawful);
}

pub proof fn lemma_symmetric<K: PartialEq>(a: K, b: K)
    requires
        lawful::<K>(),
    ensures
        same(a, b) == same(b, a),
{
    reveal(lawful);
}

pub proof fn lemma_transitive<K: PartialEq>(a: K, b: K, c: K)
    requires
        lawful::<K>(),
        same(a, b),
        same(b, c),
    ensures
        same(a, c),
{
    reveal(lawful);
}

} // verus!
