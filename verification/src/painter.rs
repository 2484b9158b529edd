//! Painter's ordering: triangles are drawn back to front, the farthest first,
//! so that nearer ones cover them. There is no depth test per pixel.

use vstd::prelude::*;
use crate::raster::{
    draw_filled_triangle, draw_outlined_triangle, outline_pixels, paint, pixel_at, triangle_pixels,
    Tri,
};
use crate::NUM_PIXELS;

verus! {

/// A triangle ready to be drawn: its corners on the screen, its depth key
/// (larger is farther from the viewer) and its packed, already shaded colour.
#[derive(Debug, Clone, Copy)]
pub struct Shaded {
    pub tri: Tri,
    pub depth: u32,
    pub colour: u32,
}

/// Whether the item at index `a` is drawn before the one at index `b`: it
/// has the larger key, or the same key and the larger index.
pub open spec fn drawn_before(keys: Seq<u32>, a: int, b: int) -> bool {
    keys[a] > keys[b] || (keys[a] == keys[b] && a > b)
}

/// Whether `order` lists every index of `keys` once, each before all those
/// that are drawn after it.
pub open spec fn is_depth_order(keys: Seq<u32>, order: Seq<usize>) -> bool {
    &&& order.len() == keys.len()
    &&& forall|i: int| 0 <= i < order.len() ==> 0 <= #[trigger] order[i] < keys.len()
    &&& forall|i: int, j: int|
        0 <= i < j < order.len() ==> drawn_before(keys, order[i] as int, order[j] as int)
    &&& forall|k: usize| k < keys.len() ==> #[trigger] order.contains(k)
}

/// Two depth orders of the same keys agree on their first `n` places.
proof fn lemma_depth_order_agrees(keys: Seq<u32>, o1: Seq<usize>, o2: Seq<usize>, n: int)
    requires
        is_depth_order(keys, o1),
        is_depth_order(keys, o2),
        0 <= n <= keys.len(),
    ensures
        forall|i: int| 0 <= i < n ==> o1[i] == o2[i],
    decreases n,
{
    if n > 0 {
        lemma_depth_order_agrees(keys, o1, o2, n - 1);
        let i = n - 1;
        let a = o1[i];
        let b = o2[i];
        if a != b {
            // Each of the two stands somewhere in the other order; neither can
            // stand before place i, where the two orders agree, so each is
            // drawn after the other.
            assert(o2.contains(a));
            let p = choose|p: int| 0 <= p < o2.len() && o2[p] == a;
            if p < i {
                assert(drawn_before(keys, o1[p] as int, o1[i] as int));
            }
            assert(o1.contains(b));
            let q = choose|q: int| 0 <= q < o1.len() && o1[q] == b;
            if q < i {
                assert(drawn_before(keys, o2[q] as int, o2[i] as int));
            }
            assert(drawn_before(keys, o2[i] as int, o2[p] as int));
            assert(drawn_before(keys, o1[i] as int, o1[q] as int));
        }
    }
}

/// The keys determine the depth order: there is only one.
pub proof fn lemma_depth_order_unique(keys: Seq<u32>, o1: Seq<usize>, o2: Seq<usize>)
    requires
        is_depth_order(keys, o1),
        is_depth_order(keys, o2),
    ensures
        o1 == o2,
{
    lemma_depth_order_agrees(keys, o1, o2, keys.len() as int);
    assert(o1 =~= o2);
}

/// The depth order of `keys`: the order in which items with these depth keys
/// are drawn, the farthest first.
pub open spec fn back_to_front(keys: Seq<u32>) -> Seq<usize> {
    choose|order: Seq<usize>| is_depth_order(keys, order)
}

/// Whether the pair `p` stands at or before `q` in ascending order: pairs are
/// ordered by their first component, then by their second.
pub open spec fn pair_le(p: (u32, usize), q: (u32, usize)) -> bool {
    p.0 < q.0 || (p.0 == q.0 && p.1 <= q.1)
}

/// Sorts pairs of integers in ascending order with `sort` of the standard
/// library's slices. Assumed of it, as documented there: the result holds the
/// same pairs as before, as often as before, and each pair stands at or
/// before every later one, tuples being ordered by their first component and
/// then by their second.
#[verifier::external_body]
fn sort_pairs(pairs: &mut Vec<(u32, usize)>)
    ensures
        final(pairs)@.to_multiset() == old(pairs)@.to_multiset(),
        forall|i: int, j: int|
            0 <= i < j < final(pairs)@.len() ==> pair_le(final(pairs)@[i], final(pairs)@[j]),
{
    pairs.sort();
}

/// The order in which to draw items with the given depth keys: by decreasing
/// key, the farthest first. Items with equal keys go by decreasing index.
pub fn depth_order(keys: &Vec<u32>) -> (order: Vec<usize>)
    ensures
        is_depth_order(keys@, order@),
        order@ == back_to_front(keys@),
{
    let n = keys.len();
    let mut pairs: Vec<(u32, usize)> = Vec::new();
    let mut i: usize = 0;
    while i < n
        invariant
            n == keys.len(),
            i <= n,
            pairs@.len() == i,
            forall|m: int| 0 <= m < i ==> #[trigger] pairs@[m] == (keys@[m], m as usize),
        decreases n - i,
    {
        pairs.push((keys[i], i));
        i += 1;
    }
    let ghost tagged = pairs@;
    sort_pairs(&mut pairs);
    let ghost sorted = pairs@;
    proof {
        sorted.to_multiset_ensures();
        tagged.to_multiset_ensures();
        // Every sorted pair is a key with its own index.
        assert forall|j: int| 0 <= j < sorted.len() implies (#[trigger] sorted[j]).1 < n
            && sorted[j].0 == keys@[sorted[j].1 as int] by {
            assert(sorted.contains(sorted[j]));
            assert(sorted.to_multiset().count(sorted[j]) > 0);
            assert(tagged.to_multiset().count(sorted[j]) > 0);
            assert(tagged.contains(sorted[j]));
        }
        // No pair occurs twice.
        assert(tagged.no_duplicates());
        tagged.lemma_multiset_has_no_duplicates();
        sorted.lemma_multiset_has_no_duplicates_conv();
    }
    let mut order: Vec<usize> = Vec::new();
    let mut j: usize = n;
    while j > 0
        invariant
            j <= n,
            n == sorted.len(),
            pairs@ == sorted,
            order@.len() == n - j,
            forall|m: int| 0 <= m < order@.len() ==> #[trigger] order@[m] == sorted[n - 1 - m].1,
        decreases j,
    {
        j -= 1;
        order.push(pairs[j].1);
    }
    proof {
        assert forall|a: int, b: int| 0 <= a < b < order@.len() implies drawn_before(
            keys@,
            order@[a] as int,
            order@[b] as int,
        ) by {
            let hi = sorted[n - 1 - a];
            let lo = sorted[n - 1 - b];
            assert(pair_le(lo, hi));
            assert(lo != hi);
        }
        assert forall|k: usize| k < keys@.len() implies #[trigger] order@.contains(k) by {
            let pair = tagged[k as int];
            assert(pair == (keys@[k as int], k));
            assert(tagged.contains(pair));
            assert(tagged.to_multiset().count(pair) > 0);
            assert(sorted.to_multiset().count(pair) > 0);
            assert(sorted.contains(pair));
            let m = choose|m: int| 0 <= m < sorted.len() && sorted[m] == pair;
            assert(order@[n - 1 - m] == k);
        }
        assert(is_depth_order(keys@, order@));
        assert(exists|o: Seq<usize>| is_depth_order(keys@, o));
        lemma_depth_order_unique(keys@, order@, back_to_front(keys@));
    }
    order
}

/// The pixels that drawing `tri` covers: its edges in wireframe mode, its
/// filled area otherwise.
pub open spec fn cover(tri: Tri, wireframe: bool) -> Set<(int, int)> {
    if wireframe {
        outline_pixels(tri)
    } else {
        triangle_pixels(tri)
    }
}

/// The depth keys of a scene, in the order of its triangles.
pub open spec fn depths(scene: Seq<Shaded>) -> Seq<u32> {
    Seq::new(scene.len(), |i: int| scene[i].depth)
}

/// The buffer `buf` after the first `n` triangles that `order` lists have
/// been drawn over it, one after the other, each in its own colour.
pub open spec fn painted(
    buf: Seq<u32>,
    scene: Seq<Shaded>,
    order: Seq<usize>,
    n: int,
    wireframe: bool,
) -> Seq<u32>
    decreases n,
{
    if n <= 0 {
        buf
    } else {
        let item = scene[order[n - 1] as int];
        paint(painted(buf, scene, order, n - 1, wireframe), cover(item.tri, wireframe), item.colour)
    }
}

/// Draws a scene back to front: the triangles are ordered by decreasing
/// depth key and drawn in that order, filled or, in wireframe mode, as
/// outlines, so that a nearer triangle covers a farther one.
pub fn draw_back_to_front(buffer: &mut Vec<u32>, scene: &Vec<Shaded>, wireframe: bool)
    ensures
        is_depth_order(depths(scene@), back_to_front(depths(scene@))),
        final(buffer)@ == painted(
            old(buffer)@,
            scene@,
            back_to_front(depths(scene@)),
            scene@.len() as int,
            wireframe,
        ),
{
    let n = scene.len();
    let mut keys: Vec<u32> = Vec::new();
    let mut i: usize = 0;
    while i < n
        invariant
            n == scene.len(),
            i <= n,
            keys@.len() == i,
            forall|m: int| 0 <= m < i ==> #[trigger] keys@[m] == scene@[m].depth,
        decreases n - i,
    {
        keys.push(scene[i].depth);
        i += 1;
    }
    assert(keys@ =~= depths(scene@));
    let order = depth_order(&keys);
    let mut done: usize = 0;
    while done < n
        invariant
            n == scene.len(),
            done <= n,
            is_depth_order(depths(scene@), order@),
            order@ == back_to_front(depths(scene@)),
            buffer@ == painted(old(buffer)@, scene@, order@, done as int, wireframe),
        decreases n - done,
    {
        let item = &scene[order[done]];
        if wireframe {
            draw_outlined_triangle(buffer, &item.tri, item.colour);
        } else {
            draw_filled_triangle(buffer, &item.tri, item.colour);
        }
        done += 1;
    }
}

/// Drawing keeps the length of the buffer.
pub proof fn lemma_painted_len(
    buf: Seq<u32>,
    scene: Seq<Shaded>,
    order: Seq<usize>,
    n: int,
    wireframe: bool,
)
    ensures
        painted(buf, scene, order, n, wireframe).len() == buf.len(),
    decreases n,
{
    if n > 0 {
        lemma_painted_len(buf, scene, order, n - 1, wireframe);
    }
}

/// A pixel that no triangle drawn so far covers shows what it showed before.
pub proof fn lemma_uncovered_pixel_stays(
    buf: Seq<u32>,
    scene: Seq<Shaded>,
    order: Seq<usize>,
    n: int,
    wireframe: bool,
    i: int,
)
    requires
        0 <= i < buf.len(),
        0 <= n <= order.len(),
        forall|m: int|
            0 <= m < n ==> !cover(scene[#[trigger] order[m] as int].tri, wireframe).contains(
                pixel_at(i),
            ),
    ensures
        painted(buf, scene, order, n, wireframe)[i] == buf[i],
    decreases n,
{
    if n > 0 {
        lemma_uncovered_pixel_stays(buf, scene, order, n - 1, wireframe, i);
        lemma_painted_len(buf, scene, order, n - 1, wireframe);
        assert(!cover(scene[order[n - 1] as int].tri, wireframe).contains(pixel_at(i)));
    }
}

/// Once the triangle `k` has been drawn, a pixel that it covers, and that no
/// triangle drawn after it covers, shows the colour of `k`.
proof fn lemma_covered_pixel_keeps(
    buf: Seq<u32>,
    scene: Seq<Shaded>,
    order: Seq<usize>,
    n: int,
    wireframe: bool,
    i: int,
    pos: int,
)
    requires
        0 <= i < buf.len(),
        i < NUM_PIXELS,
        0 <= pos < n <= order.len(),
        cover(scene[order[pos] as int].tri, wireframe).contains(pixel_at(i)),
        forall|m: int|
            pos < m < n ==> !cover(scene[#[trigger] order[m] as int].tri, wireframe).contains(
                pixel_at(i),
            ),
    ensures
        painted(buf, scene, order, n, wireframe)[i] == scene[order[pos] as int].colour,
    decreases n,
{
    lemma_painted_len(buf, scene, order, n - 1, wireframe);
    if n - 1 > pos {
        lemma_covered_pixel_keeps(buf, scene, order, n - 1, wireframe, i, pos);
        assert(!cover(scene[order[n - 1] as int].tri, wireframe).contains(pixel_at(i)));
    }
}

/// The painter's rule: where triangles overlap, the nearest one shows. After
/// a scene has been drawn in depth order, a pixel of the buffer shows the
/// colour of the triangle `k` if `k` covers it and every other triangle that
/// covers it is drawn before `k`.
pub proof fn lemma_nearest_triangle_shows(
    buf: Seq<u32>,
    scene: Seq<Shaded>,
    order: Seq<usize>,
    wireframe: bool,
    i: int,
    k: usize,
)
    requires
        is_depth_order(depths(scene), order),
        0 <= i < buf.len(),
        i < NUM_PIXELS,
        k < scene.len(),
        cover(scene[k as int].tri, wireframe).contains(pixel_at(i)),
        forall|m: int|
            0 <= m < scene.len() && m != k && cover(scene[m].tri, wireframe).contains(pixel_at(i))
                ==> drawn_before(depths(scene), m, k as int),
    ensures
        painted(buf, scene, order, scene.len() as int, wireframe)[i] == scene[k as int].colour,
{
    let keys = depths(scene);
    assert(order.contains(k));
    let pos = choose|pos: int| 0 <= pos < order.len() && order[pos] == k;
    assert forall|m: int| pos < m < order.len() implies !cover(
        scene[#[trigger] order[m] as int].tri,
        wireframe,
    ).contains(pixel_at(i)) by {
        // Drawn after `k`, so not before it.
        let later = order[m] as int;
        assert(drawn_before(keys, order[pos] as int, later));
        assert(0 <= later < scene.len() && later != k);
        if cover(scene[later].tri, wireframe).contains(pixel_at(i)) {
            assert(drawn_before(keys, later, k as int));
        }
    }
    lemma_covered_pixel_keeps(buf, scene, order, scene.len() as int, wireframe, i, pos);
}

} // verus!
