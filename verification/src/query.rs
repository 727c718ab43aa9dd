//! The pure parts of query evaluation: intersecting the live entities with
//! the owners of each requested component type, and enumerating the pairs
//! that a cross-component pass visits, each once with the lower index first.

use vstd::prelude::*;
use crate::entity::Entity;

verus! {

fn vec_contains_entity(v: &Vec<Entity>, e: Entity) -> (r: bool)
    ensures
        r == v@.contains(e),
{
    let mut i: usize = 0;
    while i < v.len()
        invariant
            0 <= i <= v@.len(),
            forall|k: int| 0 <= k < i ==> v@[k] != e,
        decreases v@.len() - i,
    {
        if v[i] == e {
            return true;
        }
        i += 1;
    }
    false
}

/// Whether every listed component type holds the entity.
pub open spec fn in_all_lists(lists: Seq<Vec<Entity>>, e: Entity) -> bool {
    forall|l: int| 0 <= l < lists.len() ==> (#[trigger] lists[l])@.contains(e)
}

fn all_lists_contain(lists: &Vec<Vec<Entity>>, e: Entity) -> (r: bool)
    ensures
        r == in_all_lists(lists@, e),
{
    let mut l: usize = 0;
    while l < lists.len()
        invariant
            0 <= l <= lists@.len(),
            forall|k: int| 0 <= k < l ==> (#[trigger] lists@[k])@.contains(e),
        decreases lists@.len() - l,
    {
        if !vec_contains_entity(&lists[l], e) {
            return false;
        }
        l += 1;
    }
    true
}

/// The entities among `active` that hold every requested component type:
/// the intersection of the live set with each type's owner list, in the
/// order of `active`.
pub fn entities_with_components(active: &Vec<Entity>, component_lists: &Vec<Vec<Entity>>) -> (r:
    Vec<Entity>)
    ensures
        forall|k: int|
            0 <= k < r@.len() ==> active@.contains(#[trigger] r@[k]) && in_all_lists(
                component_lists@,
                r@[k],
            ),
        forall|i: int|
            0 <= i < active@.len() && in_all_lists(component_lists@, #[trigger] active@[i])
                ==> r@.contains(active@[i]),
        (forall|i1: int, i2: int|
            0 <= i1 < i2 < active@.len() ==> active@[i1] != active@[i2]) ==> (forall|
            k1: int,
            k2: int,
        |
            0 <= k1 < k2 < r@.len() ==> r@[k1] != r@[k2]),
{
    let mut out: Vec<Entity> = Vec::new();
    let mut i: usize = 0;
    while i < active.len()
        invariant
            0 <= i <= active@.len(),
            forall|k: int|
                0 <= k < out@.len() ==> active@.contains(#[trigger] out@[k]) && in_all_lists(
                    component_lists@,
                    out@[k],
                ),
            forall|w: int|
                0 <= w < i && in_all_lists(component_lists@, #[trigger] active@[w])
                    ==> out@.contains(active@[w]),
            forall|k: int|
                0 <= k < out@.len() ==> exists|w: int| 0 <= w < i && active@[w] == #[trigger] out@[k],
            (forall|i1: int, i2: int|
                0 <= i1 < i2 < active@.len() ==> active@[i1] != active@[i2]) ==> (forall|
                k1: int,
                k2: int,
            |
                0 <= k1 < k2 < out@.len() ==> out@[k1] != out@[k2]),
        decreases active@.len() - i,
    {
        let e = active[i];
        if all_lists_contain(component_lists, e) {
            let ghost prefix = out@;
            out.push(e);
            proof {
                assert forall|w: int|
                    0 <= w < i + 1 && in_all_lists(
                        component_lists@,
                        #[trigger] active@[w],
                    ) implies out@.contains(active@[w]) by {
                    if w < i {
                        let k = choose|k: int|
                            0 <= k < prefix.len() && #[trigger] prefix[k] == active@[w];
                        assert(out@[k] == active@[w]);
                    } else {
                        assert(out@[out@.len() - 1] == active@[w]);
                    }
                }
                assert forall|k: int|
                    0 <= k < out@.len() implies exists|w: int|
                    0 <= w < i + 1 && active@[w] == #[trigger] out@[k] by {
                    if k < prefix.len() {
                        let w = choose|w: int| 0 <= w < i && active@[w] == #[trigger] prefix[k];
                        assert(active@[w] == out@[k]);
                    } else {
                        assert(active@[i as int] == out@[k]);
                    }
                }
                if forall|i1: int, i2: int|
                    0 <= i1 < i2 < active@.len() ==> active@[i1] != active@[i2] {
                    assert forall|k1: int, k2: int|
                        0 <= k1 < k2 < out@.len() implies out@[k1] != out@[k2] by {
                        let w1 = choose|w: int|
                            0 <= w < i + 1 && active@[w] == #[trigger] out@[k1];
                        let w2 = choose|w: int|
                            0 <= w < i + 1 && active@[w] == #[trigger] out@[k2];
                        if k2 < prefix.len() {
                        } else {
                            assert(out@[k2] == active@[i as int]);
                            let wk = choose|w: int|
                                0 <= w < i && active@[w] == #[trigger] prefix[k1];
                            assert(out@[k1] == active@[wk]);
                        }
                    }
                }
            }
        }
        i += 1;
    }
    out
}

/// Whether the pair `(a, b)` appears in the sequence.
pub open spec fn pair_listed(r: Seq<(usize, usize)>, a: usize, b: usize) -> bool {
    exists|k: int| 0 <= k < r.len() && #[trigger] r[k] == (a, b)
}

/// Every unordered pair of distinct indices below `len`, visited once with
/// the lower index first, in ascending order: the visit plan of a
/// cross-component pass over a store of `len` components.
pub fn distinct_index_pairs(len: usize) -> (r: Vec<(usize, usize)>)
    ensures
        forall|k: int|
            0 <= k < r@.len() ==> (#[trigger] r@[k]).0 < r@[k].1 && r@[k].1 < len,
        forall|a: usize, b: usize|
            a < b && b < len ==> #[trigger] pair_listed(r@, a, b),
        forall|k1: int, k2: int|
            #![trigger r@[k1], r@[k2]]
            0 <= k1 < k2 < r@.len() ==> (r@[k1].0 < r@[k2].0 || (r@[k1].0 == r@[k2].0 && r@[k1].1
                < r@[k2].1)),
{
    let mut out: Vec<(usize, usize)> = Vec::new();
    let mut i: usize = 0;
    while i < len
        invariant
            0 <= i <= len,
            forall|k: int|
                0 <= k < out@.len() ==> (#[trigger] out@[k]).0 < i && out@[k].0 < out@[k].1
                    && out@[k].1 < len,
            forall|a: usize, b: usize|
                a < i && a < b && b < len ==> #[trigger] pair_listed(out@, a, b),
            forall|k1: int, k2: int|
                #![trigger out@[k1], out@[k2]]
                0 <= k1 < k2 < out@.len() ==> (out@[k1].0 < out@[k2].0 || (out@[k1].0 == out@[k2].0
                    && out@[k1].1 < out@[k2].1)),
        decreases len - i,
    {
        let mut j: usize = i + 1;
        while j < len
            invariant
                i < len,
                i < j <= len,
                forall|k: int|
                    0 <= k < out@.len() ==> ((#[trigger] out@[k]).0 < i || (out@[k].0 == i
                        && out@[k].1 < j)) && out@[k].0 < out@[k].1 && out@[k].1 < len,
                forall|a: usize, b: usize|
                    a < i && a < b && b < len ==> #[trigger] pair_listed(out@, a, b),
                forall|b: usize| i < b && b < j ==> #[trigger] pair_listed(out@, i, b),
                forall|k1: int, k2: int|
                    #![trigger out@[k1], out@[k2]]
                    0 <= k1 < k2 < out@.len() ==> (out@[k1].0 < out@[k2].0 || (out@[k1].0
                        == out@[k2].0 && out@[k1].1 < out@[k2].1)),
            decreases len - j,
        {
            let ghost prefix = out@;
            out.push((i, j));
            proof {
                assert forall|a: usize, b: usize|
                    #![trigger pair_listed(out@, a, b)]
                    pair_listed(prefix, a, b) implies pair_listed(out@, a, b) by {
                    let k = choose|k: int| 0 <= k < prefix.len() && #[trigger] prefix[k] == (a, b);
                    assert(out@[k] == (a, b));
                }
                assert(out@[out@.len() - 1] == (i, j));
                assert(pair_listed(out@, i, j));
            }
            j += 1;
        }
        i += 1;
    }
    out
}

} // verus!
