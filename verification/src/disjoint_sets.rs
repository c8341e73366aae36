//! The union-find structure that Kruskal's algorithm keeps its components in, and
//! what is known of it.

use crate::coordinate_set::{count_set, lemma_count_set_extremes, lemma_count_set_update};
use union_find::{QuickUnionUf, UnionBySize, UnionFind};
use vstd::prelude::*;

verus! {

/// `union_find::QuickUnionUf`, carried through the library as an opaque value.
#[verifier::external_type_specification]
#[verifier::external_body]
#[verifier::reject_recursive_types(V)]
pub struct ExQuickUnionUf<V>(QuickUnionUf<V>);

/// `union_find::UnionBySize`, the rule by which two sets are merged.
#[verifier::external_type_specification]
#[verifier::external_body]
pub struct ExUnionBySize(UnionBySize);

/// For each key of the structure the key that stands for its set: the root that
/// `find` arrives at.
pub uninterp spec fn uf_roots(uf: QuickUnionUf<UnionBySize>) -> Seq<usize>;

/// `UnionFind::new` on `QuickUnionUf<UnionBySize>`: a structure of `len` keys in
/// which every key is a set of its own, and so its own root.
#[verifier::external_body]
pub(crate) fn uf_new(len: usize) -> (uf: QuickUnionUf<UnionBySize>)
    ensures
        uf_roots(uf).len() == len,
        forall|i: int| 0 <= i < len ==> #[trigger] uf_roots(uf)[i] == i,
{
    QuickUnionUf::<UnionBySize>::new(len)
}

/// `UnionFind::find`: the root of the set of `key`, which is a key and its own root.
/// The call shortens paths inside the structure and leaves every root as it is. It
/// indexes by `key`, so the key has to exist.
#[verifier::external_body]
pub(crate) fn uf_find(uf: &mut QuickUnionUf<UnionBySize>, key: usize) -> (root: usize)
    requires
        key < uf_roots(*old(uf)).len(),
    ensures
        uf_roots(*final(uf)) == uf_roots(*old(uf)),
        root == uf_roots(*old(uf))[key as int],
        root < uf_roots(*old(uf)).len(),
        uf_roots(*old(uf))[root as int] == root,
{
    uf.find(key)
}

/// `UnionFind::union`: merges the sets of the two keys and tells whether they were two
/// sets. The root of one of the two sets, which of them is the structure's choice,
/// becomes the root of every key of both; all other keys keep their roots. It indexes
/// by both keys, so they have to exist.
#[verifier::external_body]
pub(crate) fn uf_union(uf: &mut QuickUnionUf<UnionBySize>, key0: usize, key1: usize) -> (merged: bool)
    requires
        key0 < uf_roots(*old(uf)).len(),
        key1 < uf_roots(*old(uf)).len(),
    ensures
        uf_roots(*final(uf)).len() == uf_roots(*old(uf)).len(),
        merged == (uf_roots(*old(uf))[key0 as int] != uf_roots(*old(uf))[key1 as int]),
        merged_roots(
            uf_roots(*old(uf)),
            uf_roots(*final(uf)),
            key0 as int,
            key1 as int,
            uf_roots(*final(uf))[key0 as int],
        ),
{
    uf.union(key0, key1)
}

/// Whether `after` are the roots that `before` become when the sets of `key0` and
/// `key1` are merged under the root `winner`: `winner` was the root of one of the
/// two, is now the root of every key of both, and no other key has a new root.
pub open spec fn merged_roots(
    before: Seq<usize>,
    after: Seq<usize>,
    key0: int,
    key1: int,
    winner: usize,
) -> bool {
    &&& after.len() == before.len()
    &&& winner == before[key0] || winner == before[key1]
    &&& forall|i: int|
        0 <= i < before.len() ==> #[trigger] after[i] == (if before[i] == before[key0] || before[i]
            == before[key1] {
            winner
        } else {
            before[i]
        })
}

/// Whether every root is a key and its own root.
pub open spec fn roots_wf(roots: Seq<usize>) -> bool {
    forall|i: int| 0 <= i < roots.len() ==> (#[trigger] roots[i]) < roots.len() && roots[roots[i] as int] == roots[i]
}

/// For each key whether it is a root.
pub open spec fn root_flags(roots: Seq<usize>) -> Seq<bool> {
    Seq::new(roots.len(), |i: int| roots[i] == i)
}

/// The number of sets: the number of keys that are roots.
pub open spec fn set_count(roots: Seq<usize>) -> nat {
    count_set(root_flags(roots))
}

/// In a fresh structure every key is a root.
pub proof fn lemma_fresh_roots(roots: Seq<usize>)
    requires
        forall|i: int| 0 <= i < roots.len() ==> #[trigger] roots[i] == i,
    ensures
        roots_wf(roots),
        set_count(roots) == roots.len(),
{
    lemma_count_set_extremes(root_flags(roots));
}

/// Merging two different sets leaves the roots in order and one set less, and
/// merging a set with itself changes nothing.
pub proof fn lemma_merged_roots(before: Seq<usize>, after: Seq<usize>, key0: int, key1: int, winner: usize)
    requires
        roots_wf(before),
        0 <= key0 < before.len(),
        0 <= key1 < before.len(),
        merged_roots(before, after, key0, key1, winner),
    ensures
        roots_wf(after),
        before[key0] != before[key1] ==> set_count(after) + 1 == set_count(before),
        before[key0] == before[key1] ==> after == before,
        forall|i: int, j: int|
            0 <= i < before.len() && 0 <= j < before.len() && before[i] == before[j] ==> after[i]
                == after[j],
        after[key0] == after[key1],
{
    let r0 = before[key0];
    let r1 = before[key1];
    assert(before[r0 as int] == r0);
    assert(before[r1 as int] == r1);
    assert forall|i: int| 0 <= i < after.len() implies (#[trigger] after[i]) < after.len()
        && after[after[i] as int] == after[i] by {
        let r = before[i];
        assert(before[r as int] == r);
        assert(before[winner as int] == winner);
    }
    if r0 == r1 {
        assert(after =~= before);
    } else {
        let loser = if winner == r0 {
            r1
        } else {
            r0
        };
        let flags = root_flags(before);
        assert(root_flags(after) =~= flags.update(loser as int, false)) by {
            assert forall|i: int| 0 <= i < before.len() implies root_flags(after)[i]
                == flags.update(loser as int, false)[i] by {
                let r = before[i];
                assert(before[r as int] == r);
            }
        }
        lemma_count_set_update(flags, loser as int, false);
    }
}

/// Where all keys have the same root, there is one set.
pub proof fn lemma_one_set(roots: Seq<usize>)
    requires
        roots_wf(roots),
        roots.len() > 0,
        forall|i: int, j: int|
            0 <= i < roots.len() && 0 <= j < roots.len() ==> roots[i] == roots[j],
    ensures
        set_count(roots) == 1,
{
    let r = roots[0];
    let flags = root_flags(roots);
    assert(roots[r as int] == r);
    let cleared = flags.update(r as int, false);
    assert forall|i: int| 0 <= i < cleared.len() implies !cleared[i] by {
        assert(roots[i] == roots[0]);
    }
    lemma_count_set_extremes(cleared);
    lemma_count_set_update(flags, r as int, false);
}

} // verus!
