//! The angles of a schedule in increasing order.

use vstd::prelude::*;
use vstd::laws_cmp::obeys_cmp;
use vstd::std_specs::btree::increasing_seq;
use vstd::std_specs::cmp::OrdSpec;

verus! {

/// References to angles are ordered as the angles are.
pub proof fn lemma_angle_refs_ordered()
    ensures
        obeys_cmp::<&u32>(),
{
    broadcast use vstd::laws_eq::group_laws_eq;
    broadcast use vstd::laws_cmp::group_laws_cmp;

    reveal(vstd::laws_eq::obeys_eq_spec_properties);
    reveal(vstd::laws_cmp::obeys_partial_cmp_spec_properties);
    reveal(vstd::laws_cmp::obeys_cmp_partial_ord);
    reveal(vstd::laws_cmp::obeys_cmp_ord);
    assert(obeys_cmp::<u32>());
    assert(vstd::laws_eq::obeys_eq::<&u32>());
}

/// A sequence of angles that a map hands out as increasing is strictly
/// increasing.
pub proof fn lemma_increasing_angles(s: Seq<&u32>)
    requires
        increasing_seq(s),
    ensures
        forall|i: int, j: int| 0 <= i < j < s.len() ==> *s[i] < *s[j],
{
    lemma_angle_refs_ordered();
    vstd::std_specs::btree::axiom_increasing_seq_meaning::<&u32>(s);
    assert forall|i: int, j: int| 0 <= i < j < s.len() implies *s[i] < *s[j] by {
        assert(OrdSpec::cmp_spec(&s[i], &s[j]) is Less);
    }
}

} // verus!
