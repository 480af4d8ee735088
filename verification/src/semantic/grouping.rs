//! The index bookkeeping of semantic grouping: which layer and mask each
//! traced shape belongs to, how shapes are re-parented when their layers
//! are claimed by a segmentation mask, and the paint order of the groups
//! that result.
//!
//! Shapes are numbered in paint order; a parent relation is a sequence of
//! `Option<usize>` indexed by shape.

use vstd::prelude::*;

verus! {

/// First shape of layer `l`: the shape counts of the layers before it, summed.
pub open spec fn range_start(counts: Seq<usize>, l: int) -> int
    decreases l,
{
    if l <= 0 {
        0
    } else {
        range_start(counts, l - 1) + counts[l - 1]
    }
}

/// The layer that shape `i` is filed under after the first `m` layers have
/// claimed their ranges `range_start(l) .. range_start(l + 1)` in order;
/// layer 0 when none claims it.
pub open spec fn layer_of(counts: Seq<usize>, i: int, m: int) -> int
    decreases m,
{
    if m <= 0 {
        0
    } else if range_start(counts, m - 1) <= i < range_start(counts, m) {
        m - 1
    } else {
        layer_of(counts, i, m - 1)
    }
}

proof fn lemma_range_start_mono(counts: Seq<usize>, l: int, n: int)
    requires
        0 <= l <= n <= counts.len(),
    ensures
        0 <= range_start(counts, l) <= range_start(counts, n),
    decreases n,
{
    if n > 0 {
        if l < n {
            lemma_range_start_mono(counts, l, n - 1);
        } else {
            lemma_range_start_mono(counts, n - 1, n - 1);
        }
    }
}

/// The layer of each of the first `num_shapes` shapes, when layer `l`
/// emitted `counts[l]` consecutive shapes.
pub fn shape_layers(counts: &[usize], num_shapes: usize) -> (r: Vec<usize>)
    requires
        range_start(counts@, counts@.len() as int) <= usize::MAX,
    ensures
        r@.len() == num_shapes,
        forall|i: int| 0 <= i < num_shapes ==> r@[i] == layer_of(counts@, i, counts@.len() as int),
{
    let mut r: Vec<usize> = vec![0; num_shapes];
    let mut cursor: usize = 0;
    let mut l: usize = 0;
    while l < counts.len()
        invariant
            l <= counts@.len(),
            range_start(counts@, counts@.len() as int) <= usize::MAX,
            cursor == range_start(counts@, l as int),
            r@.len() == num_shapes,
            forall|i: int| 0 <= i < num_shapes ==> r@[i] == layer_of(counts@, i, l as int),
        decreases counts@.len() - l,
    {
        proof {
            lemma_range_start_mono(counts@, l as int + 1, counts@.len() as int);
        }
        let end = cursor + counts[l];
        let mut i = cursor;
        while i < end
            invariant
                l < counts@.len(),
                cursor == range_start(counts@, l as int),
                end == range_start(counts@, l as int + 1),
                cursor <= i <= end,
                r@.len() == num_shapes,
                forall|k: int|
                    0 <= k < num_shapes ==> r@[k] == if cursor <= k < i {
                        l as int
                    } else {
                        layer_of(counts@, k, l as int)
                    },
            decreases end - i,
        {
            if i < num_shapes {
                r.set(i, l);
            }
            i = i + 1;
        }
        cursor = end;
        l = l + 1;
    }
    r
}

/// The mask that claimed each shape's layer, if any.
pub fn shape_masks(layers: &[usize], layer_masks: &[Option<usize>]) -> (r: Vec<Option<usize>>)
    ensures
        r@.len() == layers@.len(),
        forall|i: int|
            0 <= i < layers@.len() ==> r@[i] == if layers@[i] < layer_masks@.len() {
                layer_masks@[layers@[i] as int]
            } else {
                None
            },
{
    let mut r: Vec<Option<usize>> = Vec::new();
    let mut i: usize = 0;
    while i < layers.len()
        invariant
            i <= layers@.len(),
            r@.len() == i,
            forall|k: int|
                0 <= k < i ==> r@[k] == if layers@[k] < layer_masks@.len() {
                    layer_masks@[layers@[k] as int]
                } else {
                    None
                },
        decreases layers@.len() - i,
    {
        let l = layers[i];
        if l < layer_masks.len() {
            r.push(layer_masks[l]);
        } else {
            r.push(None);
        }
        i = i + 1;
    }
    r
}

/// Every parent named in `parents` is a shape of it.
pub open spec fn parents_in_range(parents: Seq<Option<usize>>) -> bool {
    forall|j: int| 0 <= j < parents.len() && (#[trigger] parents[j]) is Some ==> parents[j]->0 < parents.len()
}

/// The parent shape `j` keeps once the masks are applied: a shape claimed by
/// a mask stays under its parent only when the parent is claimed by the same
/// mask; an unclaimed shape keeps its parent.
pub open spec fn kept_parent(parents: Seq<Option<usize>>, assigned: Seq<Option<usize>>, j: int) -> Option<usize> {
    match parents[j] {
        None => None,
        Some(p) => if assigned[j] is Some && assigned[p as int] != assigned[j] {
            None
        } else {
            Some(p)
        },
    }
}

/// The parent relation after the masks are applied.
pub fn regroup_parents(parents: &[Option<usize>], assigned: &[Option<usize>]) -> (r: Vec<Option<usize>>)
    requires
        parents@.len() == assigned@.len(),
        parents_in_range(parents@),
    ensures
        r@.len() == parents@.len(),
        forall|j: int| 0 <= j < parents@.len() ==> r@[j] == kept_parent(parents@, assigned@, j),
        parents_in_range(r@),
{
    let mut r: Vec<Option<usize>> = Vec::new();
    let mut j: usize = 0;
    while j < parents.len()
        invariant
            j <= parents@.len(),
            parents@.len() == assigned@.len(),
            parents_in_range(parents@),
            r@.len() == j,
            forall|k: int| 0 <= k < j ==> r@[k] == kept_parent(parents@, assigned@, k),
        decreases parents@.len() - j,
    {
        let kept = match parents[j] {
            None => None,
            Some(p) => {
                assert(parents@[j as int] is Some);
                if assigned[j].is_some() && assigned[p] != assigned[j] {
                    None
                } else {
                    Some(p)
                }
            },
        };
        r.push(kept);
        j = j + 1;
    }
    assert forall|k: int| 0 <= k < r@.len() && (#[trigger] r@[k]) is Some implies r@[k]->0 < r@.len() by {
        assert(parents@[k] is Some);
    }
    r
}

/// The children of shape `p` among the first `n` shapes, in paint order.
pub open spec fn children_of(parents: Seq<Option<usize>>, p: int, n: int) -> Seq<usize>
    decreases n,
{
    if n <= 0 {
        Seq::empty()
    } else if parents[n - 1] == Some(p as usize) {
        children_of(parents, p, n - 1).push((n - 1) as usize)
    } else {
        children_of(parents, p, n - 1)
    }
}

/// For each shape, its children in paint order.
pub fn children_lists(parents: &[Option<usize>]) -> (r: Vec<Vec<usize>>)
    requires
        parents_in_range(parents@),
    ensures
        r@.len() == parents@.len(),
        forall|p: int| 0 <= p < parents@.len() ==> (#[trigger] r@[p])@ == children_of(parents@, p, parents@.len() as int),
{
    let n = parents.len();
    let mut r: Vec<Vec<usize>> = Vec::new();
    let mut k: usize = 0;
    while k < n
        invariant
            n == parents@.len(),
            k <= n,
            r@.len() == k,
            forall|p: int| 0 <= p < k ==> (#[trigger] r@[p])@ == children_of(parents@, p, 0),
        decreases n - k,
    {
        r.push(Vec::new());
        k = k + 1;
    }
    let mut j: usize = 0;
    while j < n
        invariant
            n == parents@.len(),
            parents_in_range(parents@),
            j <= n,
            r@.len() == n,
            forall|p: int| 0 <= p < n ==> (#[trigger] r@[p])@ == children_of(parents@, p, j as int),
        decreases n - j,
    {
        if let Some(p) = parents[j] {
            assert(parents@[j as int] is Some);
            let ghost before = r@;
            r[p].push(j);
            assert forall|q: int| 0 <= q < n implies (#[trigger] r@[q])@ == children_of(parents@, q, j + 1) by {
                if q != p as int {
                    assert(r@[q] == before[q]);
                }
            }
        }
        j = j + 1;
    }
    r
}


/// The smaller of two coverage values.
pub open spec fn min_u8(a: u8, b: u8) -> nat {
    if a <= b { a as nat } else { b as nat }
}

/// The length two coverage masks have in common.
pub open spec fn common_len(a: Seq<u8>, b: Seq<u8>) -> int {
    if a.len() <= b.len() { a.len() as int } else { b.len() as int }
}

/// Coverage of `layer` that `mask` also covers, pixel by pixel, over their
/// common length.
pub open spec fn shared_coverage(layer: Seq<u8>, mask: Seq<u8>) -> nat {
    crate::counting::sum_in(|p: int| min_u8(layer[p], mask[p]), 0, common_len(layer, mask))
}

/// Coverage of `layer` over its common length with `mask`.
pub open spec fn layer_coverage_total(layer: Seq<u8>, mask: Seq<u8>) -> nat {
    crate::counting::sum_in(|p: int| layer[p] as nat, 0, common_len(layer, mask))
}

/// How much of a layer's coverage a segmentation mask overlaps: the summed
/// per-pixel minimum of the two, and the layer's own summed coverage, over
/// the pixels both have.
pub fn layer_coverage(layer: &[u8], mask: &[u8]) -> (r: (u128, u128))
    ensures
        r.0 == shared_coverage(layer@, mask@),
        r.1 == layer_coverage_total(layer@, mask@),
        r.0 <= r.1,
{
    let n = if layer.len() <= mask.len() { layer.len() } else { mask.len() };
    let mut shared: u128 = 0;
    let mut total: u128 = 0;
    let mut p: usize = 0;
    while p < n
        invariant
            n == common_len(layer@, mask@),
            n <= layer@.len(),
            n <= mask@.len(),
            p <= n,
            shared == crate::counting::sum_in(|q: int| min_u8(layer@[q], mask@[q]), 0, p as int),
            total == crate::counting::sum_in(|q: int| layer@[q] as nat, 0, p as int),
            shared <= total,
            total <= 255 * p,
        decreases n - p,
    {
        let a = layer[p];
        let b = mask[p];
        shared = shared + if a <= b { a as u128 } else { b as u128 };
        total = total + a as u128;
        p = p + 1;
    }
    (shared, total)
}

/// A top-level group of the regrouped scene: the group of a segmentation
/// mask, or the tree of a shape that no mask claimed.
#[derive(Debug, Clone, Copy, PartialEq, Eq, Structural)]
pub enum TopGroup {
    Mask(usize),
    Shape(usize),
}

/// Some shape before `i` is claimed by mask `m`.
pub open spec fn claimed_before(assigned: Seq<Option<usize>>, m: usize, i: int) -> bool {
    exists|k: int| 0 <= k < i && assigned[k] == Some(m)
}

/// What shape `i` adds to the top level: its mask's group when it is the
/// first shape that mask claims, itself when it is unclaimed and has no
/// parent, else nothing.
pub open spec fn top_entry(assigned: Seq<Option<usize>>, parents: Seq<Option<usize>>, i: int) -> Seq<TopGroup> {
    match assigned[i] {
        Some(m) => if claimed_before(assigned, m, i) {
            Seq::empty()
        } else {
            seq![TopGroup::Mask(m)]
        },
        None => if parents[i] is None {
            seq![TopGroup::Shape(i as usize)]
        } else {
            Seq::empty()
        },
    }
}

/// The top-level groups contributed by the first `n` shapes, in paint order.
pub open spec fn top_groups(assigned: Seq<Option<usize>>, parents: Seq<Option<usize>>, n: int) -> Seq<TopGroup>
    decreases n,
{
    if n <= 0 {
        Seq::empty()
    } else {
        top_groups(assigned, parents, n - 1) + top_entry(assigned, parents, n - 1)
    }
}

/// The top-level groups of the regrouped scene, in paint order: each mask's
/// group stands where the first shape it claims stood.
pub fn top_level_groups(assigned: &[Option<usize>], parents: &[Option<usize>], num_masks: usize) -> (r: Vec<TopGroup>)
    requires
        assigned@.len() == parents@.len(),
        forall|i: int| 0 <= i < assigned@.len() && (#[trigger] assigned@[i]) is Some ==> assigned@[i]->0 < num_masks,
    ensures
        r@ == top_groups(assigned@, parents@, assigned@.len() as int),
{
    let n = assigned.len();
    let mut emitted: Vec<bool> = vec![false; num_masks];
    let mut r: Vec<TopGroup> = Vec::new();
    let mut i: usize = 0;
    while i < n
        invariant
            n == assigned@.len(),
            assigned@.len() == parents@.len(),
            forall|k: int| 0 <= k < assigned@.len() && (#[trigger] assigned@[k]) is Some ==> assigned@[k]->0 < num_masks,
            i <= n,
            emitted@.len() == num_masks,
            forall|m: int| 0 <= m < num_masks ==> (#[trigger] emitted@[m]) == claimed_before(assigned@, m as usize, i as int),
            r@ == top_groups(assigned@, parents@, i as int),
        decreases n - i,
    {
        let ghost before = emitted@;
        match assigned[i] {
            Some(m) => {
                assert(assigned@[i as int] is Some);
                if !emitted[m] {
                    r.push(TopGroup::Mask(m));
                    emitted.set(m, true);
                }
            },
            None => {
                if parents[i].is_none() {
                    r.push(TopGroup::Shape(i));
                }
            },
        }
        assert forall|m: int| 0 <= m < num_masks implies (#[trigger] emitted@[m]) == claimed_before(assigned@, m as usize, i + 1) by {
            if claimed_before(assigned@, m as usize, i + 1) && !claimed_before(assigned@, m as usize, i as int) {
                assert(assigned@[i as int] == Some(m as usize));
            }
            if claimed_before(assigned@, m as usize, i as int) {
                let k = choose|k: int| 0 <= k < i && assigned@[k] == Some(m as usize);
                assert(0 <= k < i + 1 && assigned@[k] == Some(m as usize));
            }
            if assigned@[i as int] == Some(m as usize) {
                assert(0 <= i < i + 1 && assigned@[i as int] == Some(m as usize));
            }
        }
        assert(top_groups(assigned@, parents@, i + 1) == top_groups(assigned@, parents@, i as int) + top_entry(assigned@, parents@, i as int));
        i = i + 1;
    }
    r
}

/// The shapes among the first `n` that mask `m` claims and that have no
/// parent left, in paint order: the members of the mask's group.
pub open spec fn mask_roots_of(assigned: Seq<Option<usize>>, parents: Seq<Option<usize>>, m: usize, n: int) -> Seq<usize>
    decreases n,
{
    if n <= 0 {
        Seq::empty()
    } else if assigned[n - 1] == Some(m) && parents[n - 1] is None {
        mask_roots_of(assigned, parents, m, n - 1).push((n - 1) as usize)
    } else {
        mask_roots_of(assigned, parents, m, n - 1)
    }
}

/// The members of mask `m`'s group, in paint order.
pub fn mask_roots(assigned: &[Option<usize>], parents: &[Option<usize>], m: usize) -> (r: Vec<usize>)
    requires
        assigned@.len() == parents@.len(),
    ensures
        r@ == mask_roots_of(assigned@, parents@, m, assigned@.len() as int),
{
    let mut r: Vec<usize> = Vec::new();
    let mut j: usize = 0;
    while j < assigned.len()
        invariant
            assigned@.len() == parents@.len(),
            j <= assigned@.len(),
            r@ == mask_roots_of(assigned@, parents@, m, j as int),
        decreases assigned@.len() - j,
    {
        if assigned[j] == Some(m) && parents[j].is_none() {
            r.push(j);
        }
        j = j + 1;
    }
    r
}


/// Strictly increasing, and every entry below `n`.
pub open spec fn increasing_below(s: Seq<usize>, n: int) -> bool {
    &&& forall|a: int, b: int| 0 <= a < b < s.len() ==> s[a] < s[b]
    &&& forall|a: int| 0 <= a < s.len() ==> s[a] < n
}

proof fn lemma_children_of(parents: Seq<Option<usize>>, p: int, n: int)
    requires
        0 <= n <= parents.len(),
        parents.len() <= usize::MAX,
    ensures
        increasing_below(children_of(parents, p, n), n),
        forall|j: int| 0 <= j < n ==> (children_of(parents, p, n).contains(j as usize) <==> parents[j] == Some(p as usize)),
    decreases n,
{
    if n > 0 {
        lemma_children_of(parents, p, n - 1);
        let prev = children_of(parents, p, n - 1);
        let cur = children_of(parents, p, n);
        assert forall|j: int| 0 <= j < n implies (cur.contains(j as usize) <==> parents[j] == Some(p as usize)) by {
            if j < n - 1 {
                if cur.contains(j as usize) {
                    let a = choose|a: int| 0 <= a < cur.len() && cur[a] == j as usize;
                    if a < prev.len() {
                        assert(prev[a] == j as usize);
                    }
                }
                if prev.contains(j as usize) {
                    let a = choose|a: int| 0 <= a < prev.len() && prev[a] == j as usize;
                    assert(cur[a] == j as usize);
                }
            } else {
                if parents[n - 1] == Some(p as usize) {
                    assert(cur[cur.len() - 1] == (n - 1) as usize);
                } else if cur.contains(j as usize) {
                    let a = choose|a: int| 0 <= a < cur.len() && cur[a] == j as usize;
                    assert(prev[a] < n - 1);
                }
            }
        }
    }
}

proof fn lemma_mask_roots_of(assigned: Seq<Option<usize>>, parents: Seq<Option<usize>>, m: usize, n: int)
    requires
        0 <= n <= assigned.len(),
        assigned.len() == parents.len(),
        parents.len() <= usize::MAX,
    ensures
        increasing_below(mask_roots_of(assigned, parents, m, n), n),
        forall|j: int|
            0 <= j < n ==> (mask_roots_of(assigned, parents, m, n).contains(j as usize) <==> (assigned[j] == Some(m)
                && parents[j] is None)),
    decreases n,
{
    if n > 0 {
        lemma_mask_roots_of(assigned, parents, m, n - 1);
        let prev = mask_roots_of(assigned, parents, m, n - 1);
        let cur = mask_roots_of(assigned, parents, m, n);
        assert forall|j: int| 0 <= j < n implies (cur.contains(j as usize) <==> (assigned[j] == Some(m)
            && parents[j] is None)) by {
            if j < n - 1 {
                if cur.contains(j as usize) {
                    let a = choose|a: int| 0 <= a < cur.len() && cur[a] == j as usize;
                    if a < prev.len() {
                        assert(prev[a] == j as usize);
                    }
                }
                if prev.contains(j as usize) {
                    let a = choose|a: int| 0 <= a < prev.len() && prev[a] == j as usize;
                    assert(cur[a] == j as usize);
                }
            } else {
                if assigned[n - 1] == Some(m) && parents[n - 1] is None {
                    assert(cur[cur.len() - 1] == (n - 1) as usize);
                } else if cur.contains(j as usize) {
                    let a = choose|a: int| 0 <= a < cur.len() && cur[a] == j as usize;
                    assert(prev[a] < n - 1);
                }
            }
        }
    }
}

/// What the top level holds of the first `n` shapes: shapes from among them,
/// and masks that claim one of them; and no group twice.
proof fn lemma_top_groups(assigned: Seq<Option<usize>>, parents: Seq<Option<usize>>, n: int)
    requires
        0 <= n <= assigned.len(),
        assigned.len() == parents.len(),
        parents.len() <= usize::MAX,
    ensures
        forall|a: int|
            0 <= a < top_groups(assigned, parents, n).len() ==> match #[trigger] top_groups(assigned, parents, n)[a] {
                TopGroup::Shape(s) => s < n && assigned[s as int] is None && parents[s as int] is None,
                TopGroup::Mask(m) => claimed_before(assigned, m, n),
            },
        forall|a: int, b: int|
            0 <= a < b < top_groups(assigned, parents, n).len() ==> top_groups(assigned, parents, n)[a]
                != top_groups(assigned, parents, n)[b],
        forall|j: int|
            0 <= j < n && assigned[j] is None && parents[j] is None ==> top_groups(assigned, parents, n).contains(
                TopGroup::Shape(j as usize),
            ),
        forall|m: usize| #[trigger] claimed_before(assigned, m, n) ==> top_groups(assigned, parents, n).contains(TopGroup::Mask(m)),
    decreases n,
{
    if n > 0 {
        lemma_top_groups(assigned, parents, n - 1);
        let prev = top_groups(assigned, parents, n - 1);
        let e = top_entry(assigned, parents, n - 1);
        let cur = top_groups(assigned, parents, n);
        assert(cur == prev + e);
        assert forall|a: int| 0 <= a < cur.len() implies match #[trigger] cur[a] {
            TopGroup::Shape(s) => s < n && assigned[s as int] is None && parents[s as int] is None,
            TopGroup::Mask(m) => claimed_before(assigned, m, n),
        } by {
            if a < prev.len() {
                assert(cur[a] == prev[a]);
                match prev[a] {
                    TopGroup::Shape(s) => {},
                    TopGroup::Mask(m) => {
                        let k = choose|k: int| 0 <= k < n - 1 && assigned[k] == Some(m);
                        assert(0 <= k < n && assigned[k] == Some(m));
                    },
                }
            } else {
                match assigned[n - 1] {
                    Some(m) => {
                        assert(0 <= n - 1 < n && assigned[n - 1] == Some(m));
                    },
                    None => {},
                }
            }
        }
        assert forall|a: int, b: int| 0 <= a < b < cur.len() implies cur[a] != cur[b] by {
            if b >= prev.len() {
                assert(cur[a] == prev[a]);
                match assigned[n - 1] {
                    Some(m) => {
                        assert(cur[b] == TopGroup::Mask(m));
                        match prev[a] {
                            TopGroup::Shape(s) => {},
                            TopGroup::Mask(m2) => {},
                        }
                    },
                    None => {
                        assert(cur[b] == TopGroup::Shape((n - 1) as usize));
                        match prev[a] {
                            TopGroup::Shape(s) => {},
                            TopGroup::Mask(m2) => {},
                        }
                    },
                }
            } else {
                assert(cur[a] == prev[a]);
                assert(cur[b] == prev[b]);
            }
        }
        assert forall|j: int| 0 <= j < n && assigned[j] is None && parents[j] is None implies cur.contains(
            TopGroup::Shape(j as usize),
        ) by {
            if j < n - 1 {
                let a = choose|a: int| 0 <= a < prev.len() && prev[a] == TopGroup::Shape(j as usize);
                assert(cur[a] == TopGroup::Shape(j as usize));
            } else {
                assert(cur[cur.len() - 1] == TopGroup::Shape(j as usize));
            }
        }
        assert forall|m: usize| #[trigger] claimed_before(assigned, m, n) implies cur.contains(TopGroup::Mask(m)) by {
            if claimed_before(assigned, m, n - 1) {
                let a = choose|a: int| 0 <= a < prev.len() && prev[a] == TopGroup::Mask(m);
                assert(cur[a] == TopGroup::Mask(m));
            } else {
                let k = choose|k: int| 0 <= k < n && assigned[k] == Some(m);
                if k < n - 1 {
                    assert(claimed_before(assigned, m, n - 1));
                }
                assert(assigned[n - 1] == Some(m));
                assert(cur[cur.len() - 1] == TopGroup::Mask(m));
            }
        }
    }
}

/// Regrouping loses no shape: a shape with a parent is among that parent's
/// children; a parentless shape no mask claims is a top-level group of its
/// own; a parentless shape claimed by a mask is a member of that mask's
/// group, and that group is at the top level.
pub proof fn law_every_shape_placed(assigned: Seq<Option<usize>>, parents: Seq<Option<usize>>, j: int)
    requires
        parents.len() <= usize::MAX,
        assigned.len() == parents.len(),
        parents_in_range(parents),
        0 <= j < parents.len(),
    ensures
        parents[j] matches Some(p) ==> children_of(parents, p as int, parents.len() as int).contains(j as usize),
        parents[j] is None && assigned[j] is None ==> top_groups(assigned, parents, parents.len() as int).contains(
            TopGroup::Shape(j as usize),
        ),
        parents[j] is None && assigned[j] is Some ==> {
            let m = assigned[j]->0;
            &&& top_groups(assigned, parents, parents.len() as int).contains(TopGroup::Mask(m))
            &&& mask_roots_of(assigned, parents, m, parents.len() as int).contains(j as usize)
        },
{
    let n = parents.len() as int;
    lemma_top_groups(assigned, parents, n);
    if let Some(p) = parents[j] {
        lemma_children_of(parents, p as int, n);
    }
    if let Some(m) = assigned[j] {
        lemma_mask_roots_of(assigned, parents, m, n);
        assert(0 <= j < n && assigned[j] == Some(m));
        assert(claimed_before(assigned, m, n));
    }
}

/// The top level names no group twice: every mask's group appears once,
/// and so does every top-level shape.
pub proof fn law_top_groups_distinct(assigned: Seq<Option<usize>>, parents: Seq<Option<usize>>)
    requires
        parents.len() <= usize::MAX,
        assigned.len() == parents.len(),
    ensures
        forall|a: int, b: int|
            0 <= a < b < top_groups(assigned, parents, parents.len() as int).len() ==> top_groups(
                assigned,
                parents,
                parents.len() as int,
            )[a] != top_groups(assigned, parents, parents.len() as int)[b],
{
    lemma_top_groups(assigned, parents, parents.len() as int);
}

/// Children, and the members of a mask's group, keep paint order: each
/// list is strictly increasing and names only shapes of the scene.
pub proof fn law_groups_keep_paint_order(assigned: Seq<Option<usize>>, parents: Seq<Option<usize>>, p: int, m: usize)
    requires
        parents.len() <= usize::MAX,
        assigned.len() == parents.len(),
    ensures
        increasing_below(children_of(parents, p, parents.len() as int), parents.len() as int),
        increasing_below(mask_roots_of(assigned, parents, m, parents.len() as int), parents.len() as int),
{
    lemma_children_of(parents, p, parents.len() as int);
    lemma_mask_roots_of(assigned, parents, m, parents.len() as int);
}

/// Regrouping only cuts parent links, never makes new ones, and leaves
/// every shape that no mask claims under its old parent.
pub proof fn law_regroup_only_cuts(parents: Seq<Option<usize>>, assigned: Seq<Option<usize>>, j: int)
    requires
        parents.len() == assigned.len(),
        parents_in_range(parents),
        0 <= j < parents.len(),
    ensures
        kept_parent(parents, assigned, j) matches Some(p) ==> parents[j] == Some(p),
        assigned[j] is None ==> kept_parent(parents, assigned, j) == parents[j],
{
}

} // verus!
