use crate::disjoint_sets::DisjointSets;
use vstd::prelude::*;

verus! {

/// A find keeps every item's representative, so a second find of `x`
/// names the representative that the first one named.
pub proof fn lemma_find_stable(before: DisjointSets, after: DisjointSets, x: u64)
    requires
        before.contains_spec(x),
        after.same_model(&before),
    ensures
        after.contains_spec(x),
        after.repr_of(x) == before.repr_of(x),
        after.class(x) == before.class(x),
{
    assert(after.class(x) =~= before.class(x));
}

/// Merging the sets of `x` and `y` gives the same partition whichever of
/// the two is named first, and afterwards `x` and `y` share a set.
pub proof fn lemma_union_commutes(
    s: DisjointSets,
    xy: DisjointSets,
    yx: DisjointSets,
    x: u64,
    y: u64,
)
    requires
        s.contains_spec(x),
        s.contains_spec(y),
        xy.items() == s.items(),
        yx.items() == s.items(),
        forall|a: u64| s.contains_spec(a) ==> #[trigger] xy.repr_of(a) == s.repr_after_union(x, y, a),
        forall|a: u64| s.contains_spec(a) ==> #[trigger] yx.repr_of(a) == s.repr_after_union(y, x, a),
    ensures
        forall|a: u64, b: u64| #[trigger] xy.same(a, b) == #[trigger] yx.same(a, b),
        xy.same(x, y),
        yx.same(x, y),
{
    assert(xy.repr_of(x) == s.repr_after_union(x, y, x));
    assert(xy.repr_of(y) == s.repr_after_union(x, y, y));
    assert(yx.repr_of(x) == s.repr_after_union(y, x, x));
    assert(yx.repr_of(y) == s.repr_after_union(y, x, y));
    assert forall|a: u64, b: u64| #[trigger] xy.same(a, b) == #[trigger] yx.same(a, b) by {
        if s.contains_spec(a) && s.contains_spec(b) {
            assert(xy.repr_of(a) == s.repr_after_union(x, y, a));
            assert(xy.repr_of(b) == s.repr_after_union(x, y, b));
            assert(yx.repr_of(a) == s.repr_after_union(y, x, a));
            assert(yx.repr_of(b) == s.repr_after_union(y, x, b));
        }
    }
}

/// A union only merges: items that shared a set before still do after.
pub proof fn lemma_union_keeps_joined(
    s: DisjointSets,
    t: DisjointSets,
    x: u64,
    y: u64,
    a: u64,
    b: u64,
)
    requires
        t.items() == s.items(),
        forall|c: u64| s.contains_spec(c) ==> #[trigger] t.repr_of(c) == s.repr_after_union(x, y, c),
        s.same(a, b),
    ensures
        t.same(a, b),
{
    assert(t.repr_of(a) == s.repr_after_union(x, y, a));
    assert(t.repr_of(b) == s.repr_after_union(x, y, b));
}

/// A union of two items that already share a set changes no item's
/// representative.
pub proof fn lemma_union_within_set(s: DisjointSets, x: u64, y: u64, a: u64)
    requires
        s.same(x, y),
    ensures
        s.repr_after_union(x, y, a) == s.repr_of(a),
{
}

/// Two states with one model put the same pairs of items in one set.
pub proof fn lemma_model_keeps_joined(before: DisjointSets, after: DisjointSets)
    requires
        after.same_model(&before),
    ensures
        forall|a: u64, b: u64| #[trigger] after.same(a, b) == before.same(a, b),
{
    assert forall|a: u64, b: u64| #[trigger] after.same(a, b) == before.same(a, b) by {
        if before.contains_spec(a) && before.contains_spec(b) {
            assert(after.repr_of(a) == before.repr_of(a));
            assert(after.repr_of(b) == before.repr_of(b));
        }
    }
}

} // verus!
