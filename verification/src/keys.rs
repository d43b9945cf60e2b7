//! Order facts about the keys that a `BTreeMap` yields.
use vstd::prelude::*;

use vstd::std_specs::btree::increasing_seq;
use vstd::std_specs::cmp::OrdSpec;

verus! {

/// Keys that a `BTreeMap` of `u64` yields in increasing order are strictly
/// increasing numbers.
pub proof fn lemma_increasing_u64(s: Seq<u64>)
    requires
        increasing_seq(s),
    ensures
        forall|i: int, j: int| 0 <= i < j < s.len() ==> #[trigger] s[i] < #[trigger] s[j],
{
    broadcast use vstd::std_specs::btree::axiom_increasing_seq_meaning;
    assert forall|i: int, j: int| 0 <= i < j < s.len() implies #[trigger] s[i] < #[trigger] s[j] by {
        assert(s[i].cmp_spec(&s[j]) is Less);
    }
}

} // verus!
