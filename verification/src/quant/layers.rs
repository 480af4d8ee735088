//! Layers from per-colour masks: exact-colour masks of a raster, and the
//! first-appearance order in which layers are stacked.

use vstd::prelude::*;
use crate::quant::{rgb_at, Layer, LayerStack};
use crate::raster::Rgb;

verus! {

/// The first index from `i` on at which `palette` holds `c`, or the length of
/// `palette` when there is none.
pub open spec fn slot_from(palette: Seq<Rgb>, c: Rgb, i: int) -> int
    decreases palette.len() - i,
{
    if i >= palette.len() || palette[i] == c {
        if i >= palette.len() { palette.len() as int } else { i }
    } else {
        slot_from(palette, c, i + 1)
    }
}

/// The first index of `palette` holding `c`, or its length.
pub open spec fn slot_of(palette: Seq<Rgb>, c: Rgb) -> int {
    slot_from(palette, c, 0)
}

/// Mark of pixel `i` in the exact mask of palette entry `k`: 255 when the
/// pixel is visible and `k` is the first entry with its colour.
pub open spec fn exact_mark(p: Seq<u8>, palette: Seq<Rgb>, k: int, i: int) -> u8 {
    if p[4 * i + 3] > 0 && slot_of(palette, rgb_at(p, i)) == k {
        255
    } else {
        0
    }
}

fn slot(palette: &[Rgb], c: Rgb) -> (s: usize)
    ensures
        s == slot_of(palette@, c),
{
    let mut i: usize = 0;
    while i < palette.len() && !(palette[i].r == c.r && palette[i].g == c.g && palette[i].b == c.b)
        invariant
            i <= palette@.len(),
            slot_from(palette@, c, i as int) == slot_of(palette@, c),
        decreases palette@.len() - i,
    {
        i = i + 1;
    }
    i
}

/// One mask per palette entry: pixel `i` is 255 in the mask of the first
/// entry with its colour when it is not fully transparent, and 0 elsewhere.
pub fn exact_masks(pixels: &[u8], total: usize, palette: &[Rgb]) -> (masks: Vec<Vec<u8>>)
    requires
        pixels@.len() >= 4 * total,
    ensures
        masks@.len() == palette@.len(),
        forall|k: int| 0 <= k < masks@.len() ==> (#[trigger] masks@[k])@.len() == total,
        forall|k: int, i: int|
            0 <= k < masks@.len() && 0 <= i < total ==> #[trigger] masks@[k]@[i] == exact_mark(pixels@, palette@, k, i),
{
    let k_all = palette.len();
    let mut slots: Vec<usize> = Vec::new();
    let mut i: usize = 0;
    while i < total
        invariant
            pixels@.len() >= 4 * total,
            k_all == palette@.len(),
            i <= total,
            slots@.len() == i,
            forall|j: int| 0 <= j < i ==> #[trigger] slots@[j] == if pixels@[4 * j + 3] > 0 {
                slot_of(palette@, rgb_at(pixels@, j))
            } else {
                k_all as int
            },
        decreases total - i,
    {
        assert(4 * i + 3 < pixels@.len());
        assert(pixels@.len() == pixels.len());
        let s = if pixels[4 * i + 3] > 0 {
            slot(palette, Rgb { r: pixels[4 * i], g: pixels[4 * i + 1], b: pixels[4 * i + 2] })
        } else {
            k_all
        };
        slots.push(s);
        i = i + 1;
    }
    let mut masks: Vec<Vec<u8>> = Vec::new();
    let mut k: usize = 0;
    while k < k_all
        invariant
            pixels@.len() >= 4 * total,
            k_all == palette@.len(),
            k <= k_all,
            slots@.len() == total,
            forall|j: int| 0 <= j < total ==> #[trigger] slots@[j] == if pixels@[4 * j + 3] > 0 {
                slot_of(palette@, rgb_at(pixels@, j))
            } else {
                k_all as int
            },
            masks@.len() == k,
            forall|q: int| 0 <= q < k ==> (#[trigger] masks@[q])@.len() == total,
            forall|q: int, j: int| 0 <= q < k && 0 <= j < total ==> #[trigger] masks@[q]@[j] == exact_mark(pixels@, palette@, q, j),
        decreases k_all - k,
    {
        let mut m: Vec<u8> = Vec::new();
        let mut j: usize = 0;
        while j < total
            invariant
                pixels@.len() >= 4 * total,
                k_all == palette@.len(),
                k < k_all,
                slots@.len() == total,
                forall|t: int| 0 <= t < total ==> #[trigger] slots@[t] == if pixels@[4 * t + 3] > 0 {
                    slot_of(palette@, rgb_at(pixels@, t))
                } else {
                    k_all as int
                },
                j <= total,
                m@.len() == j,
                forall|t: int| 0 <= t < j ==> #[trigger] m@[t] == exact_mark(pixels@, palette@, k as int, t),
            decreases total - j,
        {
            let v: u8 = if slots[j] == k {
                255
            } else {
                0
            };
            m.push(v);
            j = j + 1;
        }
        masks.push(m);
        k = k + 1;
    }
    masks
}

/// Index of the first marked pixel of `m` from `i` on, or its length.
pub open spec fn mark_from(m: Seq<u8>, i: int) -> int
    decreases m.len() - i,
{
    if i >= m.len() {
        m.len() as int
    } else if m[i] != 0 {
        i
    } else {
        mark_from(m, i + 1)
    }
}

/// Index of the first marked pixel of `m`, or its length when none is.
pub open spec fn first_mark(m: Seq<u8>) -> int {
    mark_from(m, 0)
}

/// First-mark keys of a list of masks.
pub open spec fn mask_keys(masks: Seq<Vec<u8>>) -> Seq<int> {
    Seq::new(masks.len(), |c: int| first_mark(masks[c]@))
}

/// `a` goes before `b`: its first mark is earlier, or they tie and it comes
/// first in the list.
pub open spec fn appears_before(keys: Seq<int>, a: int, b: int) -> bool {
    keys[a] < keys[b] || (keys[a] == keys[b] && a < b)
}

/// `order` lists every index of `keys` once, in first-appearance order, ties
/// kept in list order.
pub open spec fn first_appearance_order(keys: Seq<int>, order: Seq<usize>) -> bool {
    &&& order.len() == keys.len()
    &&& forall|p: int| 0 <= p < order.len() ==> #[trigger] order[p] < keys.len()
    &&& forall|p: int, q: int| 0 <= p < q < order.len() ==> appears_before(keys, #[trigger] order[p] as int, #[trigger] order[q] as int)
}

fn first_mark_of(m: &Vec<u8>) -> (f: usize)
    ensures
        f == first_mark(m@),
{
    let mut i: usize = 0;
    while i < m.len() && m[i] == 0
        invariant
            i <= m@.len(),
            mark_from(m@, i as int) == first_mark(m@),
        decreases m@.len() - i,
    {
        i = i + 1;
    }
    i
}

/// The indices of `masks` in first-appearance order.
pub fn appearance_order(masks: &Vec<Vec<u8>>) -> (order: Vec<usize>)
    ensures
        first_appearance_order(mask_keys(masks@), order@),
{
    let n = masks.len();
    let ghost keys = mask_keys(masks@);
    let mut keyv: Vec<usize> = Vec::new();
    let mut c: usize = 0;
    while c < n
        invariant
            n == masks@.len(),
            keys == mask_keys(masks@),
            c <= n,
            keyv@.len() == c,
            forall|j: int| 0 <= j < c ==> #[trigger] keyv@[j] == keys[j],
        decreases n - c,
    {
        let f = first_mark_of(&masks[c]);
        keyv.push(f);
        c = c + 1;
    }
    let mut order: Vec<usize> = Vec::new();
    c = 0;
    while c < n
        invariant
            n == masks@.len(),
            keys == mask_keys(masks@),
            keyv@.len() == n,
            forall|j: int| 0 <= j < n ==> #[trigger] keyv@[j] == keys[j],
            c <= n,
            order@.len() == c,
            forall|p: int| 0 <= p < order@.len() ==> #[trigger] order@[p] < c,
            forall|p: int, q: int| 0 <= p < q < order@.len() ==> appears_before(keys, #[trigger] order@[p] as int, #[trigger] order@[q] as int),
        decreases n - c,
    {
        let kc = keyv[c];
        let mut i: usize = 0;
        while i < order.len() && keyv[order[i]] <= kc
            invariant
                keyv@.len() == n,
                forall|j: int| 0 <= j < n ==> #[trigger] keyv@[j] == keys[j],
                c < n,
                kc == keys[c as int],
                forall|p: int| 0 <= p < order@.len() ==> #[trigger] order@[p] < c,
                i <= order@.len(),
                forall|a: int| 0 <= a < i ==> keys[(#[trigger] order@[a]) as int] <= kc,
            decreases order@.len() - i,
        {
            i = i + 1;
        }
        let ghost pre = order@;
        order.insert(i, c);
        proof {
            assert(order@ == pre.insert(i as int, c));
            assert forall|p: int| 0 <= p < order@.len() implies #[trigger] order@[p] < c + 1 by {
                if p < i {
                    assert(order@[p] == pre[p]);
                } else if p > i {
                    assert(order@[p] == pre[p - 1]);
                }
            }
            assert forall|p: int, q: int| 0 <= p < q < order@.len() implies appears_before(keys, #[trigger] order@[p] as int, #[trigger] order@[q] as int) by {
                if q < i {
                    assert(order@[p] == pre[p] && order@[q] == pre[q]);
                } else if q == i {
                    assert(order@[p] == pre[p]);
                    assert(pre[p] < c);
                } else if p < i {
                    assert(order@[p] == pre[p] && order@[q] == pre[q - 1]);
                    assert(appears_before(keys, pre[p] as int, pre[i as int] as int) || q - 1 == i);
                } else if p == i {
                    assert(order@[q] == pre[q - 1]);
                    assert(keys[pre[i as int] as int] > kc);
                    assert(q - 1 == i || appears_before(keys, pre[i as int] as int, pre[q - 1] as int));
                } else {
                    assert(order@[p] == pre[p - 1] && order@[q] == pre[q - 1]);
                }
            }
        }
        c = c + 1;
    }
    order
}

/// Layers from masks and their colours, in first-appearance order of the
/// masks; each layer's paint order is its position.
pub fn stack_by_first_appearance(masks: &Vec<Vec<u8>>, colors: &Vec<Rgb>) -> (stack: LayerStack)
    requires
        masks@.len() == colors@.len(),
    ensures
        exists|order: Seq<usize>|
            #[trigger] first_appearance_order(mask_keys(masks@), order) && stack.layers@.len() == order.len() && forall|p: int|
                0 <= p < order.len() ==> (#[trigger] stack.layers@[p]).mask@ == masks@[order[p] as int]@
                    && stack.layers@[p].color == colors@[order[p] as int] && stack.layers@[p].z_order == p,
{
    let order = appearance_order(masks);
    let mut layers: Vec<Layer> = Vec::new();
    let mut p: usize = 0;
    while p < order.len()
        invariant
            masks@.len() == colors@.len(),
            first_appearance_order(mask_keys(masks@), order@),
            p <= order@.len(),
            layers@.len() == p,
            forall|q: int| 0 <= q < p ==> (#[trigger] layers@[q]).mask@ == masks@[order@[q] as int]@
                && layers@[q].color == colors@[order@[q] as int] && layers@[q].z_order == q,
        decreases order@.len() - p,
    {
        let c = order[p];
        let m = masks[c].clone();
        assert(m@ =~= masks@[c as int]@);
        layers.push(Layer { mask: m, color: colors[c], z_order: p });
        p = p + 1;
    }
    LayerStack { layers }
}

/// A list of `n` distinct indices below `n` holds every index below `n`.
proof fn lemma_order_covers(n: int, o: Seq<usize>, v: int)
    requires
        o.len() == n,
        forall|p: int| 0 <= p < n ==> #[trigger] o[p] < n,
        forall|p: int, q: int| 0 <= p < q < n ==> #[trigger] o[p] != #[trigger] o[q],
        0 <= v < n,
    ensures
        exists|p: int| 0 <= p < n && o[p] == v,
{
    let s = Seq::new(n as nat, |p: int| o[p] as int);
    assert(s.no_duplicates()) by {
        assert forall|p: int, q: int| 0 <= p < s.len() && 0 <= q < s.len() && p != q implies s[p] != s[q] by {
            if p < q {
                assert(o[p] != o[q]);
            } else {
                assert(o[q] != o[p]);
            }
        }
    }
    s.unique_seq_to_set();
    vstd::set_lib::lemma_int_range(0, n);
    let r = vstd::set_lib::set_int_range(0, n);
    assert(s.to_set().subset_of(r)) by {
        assert forall|a: int| #[trigger] s.to_set().contains(a) implies r.contains(a) by {
            assert(s.contains(a));
            let p = choose|p: int| 0 <= p < s.len() && s[p] == a;
            assert(o[p] < n);
        }
    }
    vstd::seq_lib::seq_to_set_is_finite(s);
    vstd::set_lib::lemma_subset_equality(s.to_set(), r);
    assert(r.contains(v));
    assert(s.to_set().contains(v));
    assert(s.contains(v));
    let p = choose|p: int| 0 <= p < s.len() && s[p] == v;
    assert(o[p] == v);
}

proof fn lemma_orders_agree_below(keys: Seq<int>, o1: Seq<usize>, o2: Seq<usize>, p: int)
    requires
        first_appearance_order(keys, o1),
        first_appearance_order(keys, o2),
        0 <= p <= o1.len(),
    ensures
        forall|q: int| 0 <= q < p ==> o1[q] == o2[q],
    decreases p,
{
    if p > 0 {
        lemma_orders_agree_below(keys, o1, o2, p - 1);
        let n = keys.len() as int;
        let i = p - 1;
        let a = o1[i];
        let b = o2[i];
        assert forall|x: int, y: int| 0 <= x < y < n implies #[trigger] o1[x] != #[trigger] o1[y] by {
            assert(appears_before(keys, o1[x] as int, o1[y] as int));
        }
        assert forall|x: int, y: int| 0 <= x < y < n implies #[trigger] o2[x] != #[trigger] o2[y] by {
            assert(appears_before(keys, o2[x] as int, o2[y] as int));
        }
        if a != b {
            if appears_before(keys, a as int, b as int) {
                lemma_order_covers(n, o2, a as int);
                let q = choose|q: int| 0 <= q < n && o2[q] == a;
                if q < i {
                    assert(o1[q] == a);
                    assert(o1[q] != o1[i]);
                } else {
                    assert(q > i);
                    assert(appears_before(keys, o2[i] as int, o2[q] as int));
                }
            } else {
                assert(appears_before(keys, b as int, a as int));
                lemma_order_covers(n, o1, b as int);
                let q = choose|q: int| 0 <= q < n && o1[q] == b;
                if q < i {
                    assert(o2[q] == b);
                    assert(o2[q] != o2[i]);
                } else {
                    assert(q > i);
                    assert(appears_before(keys, o1[i] as int, o1[q] as int));
                }
            }
        }
    }
}

/// The first-appearance order of a list of masks is unique, so the layers of
/// `stack_by_first_appearance` are determined by its inputs.
pub proof fn law_appearance_order_unique(keys: Seq<int>, o1: Seq<usize>, o2: Seq<usize>)
    requires
        first_appearance_order(keys, o1),
        first_appearance_order(keys, o2),
    ensures
        o1 == o2,
{
    lemma_orders_agree_below(keys, o1, o2, o1.len() as int);
    assert(o1 =~= o2);
}

} // verus!
