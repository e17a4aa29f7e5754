use vstd::prelude::*;
use vstd::arithmetic::div_mod::lemma_div_is_ordered_by_denominator;
use crate::geometry::{disjoint, inside, size, Area};
use crate::layout::{
    aspect_score, best_slice, layout_group, layout_node, lemma_best_slice_range, lemma_share, mean_score, ASPECT_SCALE,
    place_slice, score_sum, share, slot, treemap, Placed,
};
use crate::tree::{
    lemma_normalized, lemma_normalized_all, lemma_sort_desc, lemma_sum_range_nonneg,
    lemma_sum_range_same, lemma_sum_range_split, normalized, normalized_all, sort_desc, sum_range,
    weight, Node,
};

verus! {

/// Total area of the rectangles of a layout.
pub open spec fn covered(s: Seq<Placed>) -> int
    decreases s.len(),
{
    if s.len() == 0 {
        0
    } else {
        covered(s.subrange(0, s.len() - 1)) + size(s[s.len() - 1].area)
    }
}

/// A child that has children of its own weighs their sum.
pub open spec fn weighs_its_children(c: Node) -> bool {
    c.children.len() > 0 ==> c.value == weight(c.children)
}

/// Every node below `n` that has children weighs their sum (`n`'s own weight
/// is left free).
pub open spec fn consistent(n: Node) -> bool
    decreases n,
{
    forall|i: int|
        0 <= i < n.children.len() ==> weighs_its_children(#[trigger] n.children[i]) && consistent(
            n.children[i],
        )
}

proof fn lemma_covered_concat(x: Seq<Placed>, y: Seq<Placed>)
    ensures
        covered(x + y) == covered(x) + covered(y),
    decreases y.len(),
{
    if y.len() == 0 {
        assert(x + y =~= x);
    } else {
        let z = x + y;
        let y0 = y.subrange(0, y.len() - 1);
        lemma_covered_concat(x, y0);
        assert(z.subrange(0, z.len() - 1) =~= x + y0);
    }
}

proof fn lemma_zero_sum_items(s: Seq<Node>, lo: int, k: int, hi: int)
    requires
        lo <= k < hi,
        sum_range(s, lo, hi) == 0,
    ensures
        s[k].value == 0,
{
    lemma_sum_range_split(s, lo, k, hi);
    lemma_sum_range_split(s, k, k + 1, hi);
    lemma_sum_range_nonneg(s, lo, k);
    lemma_sum_range_nonneg(s, k + 1, hi);
    assert(sum_range(s, k, k + 1) == sum_range(s, k, k) + s[k].value);
}

proof fn lemma_node_area(n: Node, a: Area, path: Seq<usize>)
    requires
        consistent(n),
        n.children.len() == 0 || weight(n.children) > 0,
        a.w >= 0,
        a.h >= 0,
    ensures
        covered(layout_node(n, a, path)) == size(a),
    decreases n, 2int, 0int,
{
    if n.children.len() == 0 {
        let r = layout_node(n, a, path);
        assert(r.subrange(0, 0) =~= Seq::<Placed>::empty());
        assert(covered(r) == covered(r.subrange(0, 0)) + size(r[0].area));
    } else {
        assert(forall|i: int|
            0 <= i < n.children.len() ==> weighs_its_children(#[trigger] n.children[i])
                && consistent(n.children[i]));
        lemma_group_area(n.children, 0, a, path);
    }
}

proof fn lemma_group_area(s: Seq<Node>, start: int, a: Area, path: Seq<usize>)
    requires
        0 <= start <= s.len(),
        forall|i: int|
            0 <= i < s.len() ==> weighs_its_children(#[trigger] s[i]) && consistent(s[i]),
        a.w >= 0,
        a.h >= 0,
    ensures
        covered(layout_group(s, start, a, path)) == if sum_range(s, start, s.len() as int) > 0 {
            size(a)
        } else {
            0
        },
    decreases s, 1int, s.len() - start,
{
    let total = sum_range(s, start, s.len() as int);
    if start < s.len() && total > 0 {
        let wide = a.w > a.h;
        let long = if wide { a.w } else { a.h };
        let cross = if wide { a.h } else { a.w };
        let n = best_slice(s, start, s.len() - start, long, cross, total);
        lemma_best_slice_range(s, start, s.len() - start, long, cross, total);
        let part = sum_range(s, start, start + n);
        lemma_sum_range_split(s, start, start + n, s.len() as int);
        lemma_sum_range_nonneg(s, start, start + n);
        lemma_sum_range_nonneg(s, start + n, s.len() as int);
        lemma_share(long, part, total, total);
        lemma_share(long, 0, part, total);
        let c = share(long, part, total);
        let r1 = if wide {
            Area { x: a.x, y: a.y, w: c, h: a.h }
        } else {
            Area { x: a.x, y: a.y, w: a.w, h: c }
        };
        let r2 = if wide {
            Area { x: a.x + c, y: a.y, w: a.w - c, h: a.h }
        } else {
            Area { x: a.x, y: a.y + c, w: a.w, h: a.h - c }
        };
        let sl = place_slice(s, start, start, start + n, r1, wide, part, path);
        let rest = layout_group(s, start + n, r2, path);
        lemma_covered_concat(sl, rest);
        lemma_slice_area(s, start, start, start + n, r1, wide, part, path);
        lemma_group_area(s, start + n, r2, path);
        if part > 0 {
            lemma_share(if wide { r1.h } else { r1.w }, 0, part, part);
        }
        if sum_range(s, start + n, s.len() as int) == 0 {
            assert(part == total);
            assert(c == long);
            assert(covered(rest) == 0);
            if wide {
                assert(a.w - c == 0);
                assert((a.w - c) * a.h == 0);
            } else {
                assert(a.h - c == 0);
                assert(a.w * (a.h - c) == 0);
            }
        } else {
            assert(covered(rest) == size(r2));
        }
        if wide {
            assert(covered(sl) == a.h * c);
            assert(covered(rest) == (a.w - c) * a.h);
            assert(a.h * c + (a.w - c) * a.h == a.w * a.h) by (nonlinear_arith);
        } else {
            assert(covered(sl) == a.w * c);
            assert(covered(rest) == a.w * (a.h - c));
            assert(a.w * c + a.w * (a.h - c) == a.w * a.h) by (nonlinear_arith);
        }
    }
}

proof fn lemma_slice_area(
    s: Seq<Node>,
    start: int,
    k: int,
    end: int,
    r1: Area,
    wide: bool,
    part: int,
    path: Seq<usize>,
)
    requires
        0 <= start <= k <= end <= s.len(),
        part == sum_range(s, start, end),
        forall|i: int|
            0 <= i < s.len() ==> weighs_its_children(#[trigger] s[i]) && consistent(s[i]),
        r1.w >= 0,
        r1.h >= 0,
    ensures
        covered(place_slice(s, start, k, end, r1, wide, part, path)) == if part > 0 {
            ((if wide { r1.h } else { r1.w }) - share(
                if wide { r1.h } else { r1.w },
                sum_range(s, start, k),
                part,
            )) * (if wide { r1.w } else { r1.h })
        } else {
            0
        },
    decreases s, 0int, end - k,
{
    let run = if wide { r1.h } else { r1.w };
    let other = if wide { r1.w } else { r1.h };
    if k < end {
        lemma_slice_area(s, start, k + 1, end, r1, wide, part, path);
        let tail = place_slice(s, start, k + 1, end, r1, wide, part, path);
        let v = s[k].value;
        lemma_sum_range_split(s, start, k + 1, end);
        lemma_sum_range_nonneg(s, start, k);
        lemma_sum_range_nonneg(s, k + 1, end);
        if v == 0 {
            assert(place_slice(s, start, k, end, r1, wide, part, path) =~= tail);
            assert(sum_range(s, start, k + 1) == sum_range(s, start, k));
            if part == 0 {
                assert(covered(tail) == 0);
            }
        } else {
            let lo = share(run, sum_range(s, start, k), part);
            let hi = share(run, sum_range(s, start, k + 1), part);
            assert(part > 0);
            lemma_share(run, sum_range(s, start, k), sum_range(s, start, k + 1), part);
            lemma_share(run, sum_range(s, start, k + 1), part, part);
            let sl = slot(s, start, k, r1, wide, part);
            let here = layout_node(s[k], sl, path.push(k as usize));
            lemma_node_area(s[k], sl, path.push(k as usize));
            lemma_covered_concat(here, tail);
            assert(place_slice(s, start, k, end, r1, wide, part, path) == here + tail);
            assert(covered(tail) == (run - hi) * other);
            assert(size(sl) == (hi - lo) * other) by (nonlinear_arith)
                requires
                    size(sl) == sl.w * sl.h,
                    wide ==> sl.w == other && sl.h == hi - lo,
                    !wide ==> sl.w == hi - lo && sl.h == other,
            ;
            assert((hi - lo) * other + (run - hi) * other == (run - lo) * other) by (nonlinear_arith);
        }
    } else {
        assert(place_slice(s, start, k, end, r1, wide, part, path) =~= Seq::<Placed>::empty());
        if part > 0 {
            lemma_share(run, part, part, part);
            assert(k == end);
            assert(share(run, sum_range(s, start, k), part) == run);
            assert((run - run) * other == 0);
        }
    }
}

/// Area conservation: when every node below the root that has children
/// weighs their sum, and the root is a leaf or its children weigh something,
/// the rectangles of the treemap cover exactly the viewport's area.
pub proof fn law_area_conservation(n: Node, viewport: Area)
    requires
        consistent(n),
        n.children.len() == 0 || weight(n.children) > 0,
        viewport.w >= 0,
        viewport.h >= 0,
    ensures
        covered(treemap(n, viewport)) == size(viewport),
{
    lemma_normalized_consistent(n);
    lemma_normalized(n);
    lemma_node_area(normalized(n), viewport, Seq::empty());
}

proof fn lemma_normalized_consistent(n: Node)
    requires
        consistent(n),
    ensures
        consistent(normalized(n)),
    decreases n,
{
    let c = n.children;
    let a = normalized_all(c);
    lemma_normalized_all(c);
    assert forall|i: int| 0 <= i < c.len() implies weighs_its_children(#[trigger] a[i]) && consistent(
        a[i],
    ) by {
        assert(weighs_its_children(c[i]) && consistent(c[i]));
        lemma_normalized_consistent(c[i]);
        lemma_normalized(c[i]);
    }
    let keep = |m: Node| weighs_its_children(m) && consistent(m);
    lemma_sort_desc(a, keep);
    assert(normalized(n).children == sort_desc(a));
}


/// Every rectangle of `s` lies within `a`.
pub open spec fn within(s: Seq<Placed>, a: Area) -> bool {
    forall|i: int| 0 <= i < s.len() ==> inside(#[trigger] s[i].area, a)
}

/// No two rectangles of `s` share an interior point.
pub open spec fn separate(s: Seq<Placed>) -> bool {
    forall|i: int, j: int|
        0 <= i < s.len() && 0 <= j < s.len() && i != j ==> disjoint(
            #[trigger] s[i].area,
            #[trigger] s[j].area,
        )
}

/// Every leaf of `s` has a positive weight.
pub open spec fn all_weighted(s: Seq<Placed>) -> bool {
    forall|i: int| 0 <= i < s.len() ==> #[trigger] s[i].value > 0
}

/// The part of the slice `r1` from offset `lo` on, along the direction in
/// which its items follow each other.
pub open spec fn band(r1: Area, wide: bool, lo: int) -> Area {
    if wide {
        Area { x: r1.x, y: r1.y + lo, w: r1.w, h: r1.h - lo }
    } else {
        Area { x: r1.x + lo, y: r1.y, w: r1.w - lo, h: r1.h }
    }
}

proof fn lemma_concat_tiles(x: Seq<Placed>, y: Seq<Placed>, ax: Area, ay: Area, outer: Area)
    requires
        within(x, ax),
        within(y, ay),
        inside(ax, outer),
        inside(ay, outer),
        disjoint(ax, ay),
        separate(x),
        separate(y),
    ensures
        within(x + y, outer),
        separate(x + y),
        all_weighted(x) && all_weighted(y) ==> all_weighted(x + y),
{
    let z = x + y;
    assert forall|i: int| 0 <= i < z.len() implies inside(#[trigger] z[i].area, outer) by {
        if i < x.len() {
            assert(inside(x[i].area, ax));
        } else {
            assert(inside(y[i - x.len()].area, ay));
        }
    }
    assert forall|i: int, j: int|
        0 <= i < z.len() && 0 <= j < z.len() && i != j implies disjoint(
        #[trigger] z[i].area,
        #[trigger] z[j].area,
    ) by {
        if i < x.len() && j < x.len() {
            assert(disjoint(x[i].area, x[j].area));
        } else if i >= x.len() && j >= x.len() {
            assert(disjoint(y[i - x.len()].area, y[j - x.len()].area));
        } else if i < x.len() {
            assert(inside(x[i].area, ax));
            assert(inside(y[j - x.len()].area, ay));
        } else {
            assert(inside(y[i - x.len()].area, ay));
            assert(inside(x[j].area, ax));
        }
    }
    if all_weighted(x) && all_weighted(y) {
        assert forall|i: int| 0 <= i < z.len() implies #[trigger] z[i].value > 0 by {
            if i < x.len() {
                assert(x[i].value > 0);
            } else {
                assert(y[i - x.len()].value > 0);
            }
        }
    }
}

proof fn lemma_node_tiles(n: Node, a: Area, path: Seq<usize>)
    requires
        a.w >= 0,
        a.h >= 0,
    ensures
        within(layout_node(n, a, path), a),
        separate(layout_node(n, a, path)),
        n.children.len() > 0 ==> all_weighted(layout_node(n, a, path)),
    decreases n, 2int, 0int,
{
    if n.children.len() > 0 {
        lemma_group_tiles(n.children, 0, a, path);
    }
}

proof fn lemma_group_tiles(s: Seq<Node>, start: int, a: Area, path: Seq<usize>)
    requires
        0 <= start <= s.len(),
        a.w >= 0,
        a.h >= 0,
    ensures
        within(layout_group(s, start, a, path), a),
        separate(layout_group(s, start, a, path)),
        all_weighted(layout_group(s, start, a, path)),
    decreases s, 1int, s.len() - start,
{
    let total = sum_range(s, start, s.len() as int);
    if start < s.len() && total > 0 {
        let wide = a.w > a.h;
        let long = if wide { a.w } else { a.h };
        let cross = if wide { a.h } else { a.w };
        let n = best_slice(s, start, s.len() - start, long, cross, total);
        lemma_best_slice_range(s, start, s.len() - start, long, cross, total);
        let part = sum_range(s, start, start + n);
        lemma_sum_range_split(s, start, start + n, s.len() as int);
        lemma_sum_range_nonneg(s, start, start + n);
        lemma_sum_range_nonneg(s, start + n, s.len() as int);
        lemma_share(long, part, total, total);
        let c = share(long, part, total);
        let r1 = if wide {
            Area { x: a.x, y: a.y, w: c, h: a.h }
        } else {
            Area { x: a.x, y: a.y, w: a.w, h: c }
        };
        let r2 = if wide {
            Area { x: a.x + c, y: a.y, w: a.w - c, h: a.h }
        } else {
            Area { x: a.x, y: a.y + c, w: a.w, h: a.h - c }
        };
        let sl = place_slice(s, start, start, start + n, r1, wide, part, path);
        let rest = layout_group(s, start + n, r2, path);
        lemma_group_tiles(s, start + n, r2, path);
        if part > 0 {
            lemma_slice_tiles(s, start, start, start + n, r1, wide, part, path);
            lemma_share(if wide { r1.h } else { r1.w }, 0, part, part);
            assert(band(r1, wide, share(if wide { r1.h } else { r1.w }, 0, part)) == r1);
        } else {
            assert(sl =~= Seq::<Placed>::empty()) by {
                lemma_zero_slice_empty(s, start, start, start + n, r1, wide, part, path);
            }
        }
        lemma_concat_tiles(sl, rest, r1, r2, a);
    }
}

proof fn lemma_zero_slice_empty(
    s: Seq<Node>,
    start: int,
    k: int,
    end: int,
    r1: Area,
    wide: bool,
    part: int,
    path: Seq<usize>,
)
    requires
        0 <= start <= k <= end <= s.len(),
        part == sum_range(s, start, end),
        part == 0,
    ensures
        place_slice(s, start, k, end, r1, wide, part, path) == Seq::<Placed>::empty(),
    decreases end - k,
{
    if k < end {
        lemma_zero_sum_items(s, start, k, end);
        lemma_zero_slice_empty(s, start, k + 1, end, r1, wide, part, path);
        assert(place_slice(s, start, k, end, r1, wide, part, path) =~= Seq::<Placed>::empty());
    }
}

proof fn lemma_slice_tiles(
    s: Seq<Node>,
    start: int,
    k: int,
    end: int,
    r1: Area,
    wide: bool,
    part: int,
    path: Seq<usize>,
)
    requires
        0 <= start <= k <= end <= s.len(),
        part == sum_range(s, start, end),
        part > 0,
        r1.w >= 0,
        r1.h >= 0,
    ensures
        within(
            place_slice(s, start, k, end, r1, wide, part, path),
            band(r1, wide, share(if wide { r1.h } else { r1.w }, sum_range(s, start, k), part)),
        ),
        separate(place_slice(s, start, k, end, r1, wide, part, path)),
        all_weighted(place_slice(s, start, k, end, r1, wide, part, path)),
    decreases s, 0int, end - k,
{
    let run = if wide { r1.h } else { r1.w };
    if k < end {
        lemma_slice_tiles(s, start, k + 1, end, r1, wide, part, path);
        let tail = place_slice(s, start, k + 1, end, r1, wide, part, path);
        let v = s[k].value;
        lemma_sum_range_split(s, start, k + 1, end);
        lemma_sum_range_nonneg(s, start, k);
        lemma_sum_range_nonneg(s, k + 1, end);
        let lo = share(run, sum_range(s, start, k), part);
        let hi = share(run, sum_range(s, start, k + 1), part);
        lemma_share(run, sum_range(s, start, k), sum_range(s, start, k + 1), part);
        lemma_share(run, sum_range(s, start, k + 1), part, part);
        if v == 0 {
            assert(place_slice(s, start, k, end, r1, wide, part, path) =~= tail);
            assert(sum_range(s, start, k + 1) == sum_range(s, start, k));
        } else {
            let sl = slot(s, start, k, r1, wide, part);
            let here = layout_node(s[k], sl, path.push(k as usize));
            lemma_node_tiles(s[k], sl, path.push(k as usize));
            assert(place_slice(s, start, k, end, r1, wide, part, path) == here + tail);
            if s[k].children.len() == 0 {
                assert(here[0].value == v);
            }
            lemma_concat_tiles(here, tail, sl, band(r1, wide, hi), band(r1, wide, lo));
        }
    } else {
        assert(place_slice(s, start, k, end, r1, wide, part, path) =~= Seq::<Placed>::empty());
    }
}

/// Non-overlap: every rectangle of the treemap lies within the viewport and
/// no two of them share an interior point, so that, with area conservation,
/// they tile it.
pub proof fn law_non_overlap(n: Node, viewport: Area)
    requires
        viewport.w >= 0,
        viewport.h >= 0,
    ensures
        within(treemap(n, viewport), viewport),
        separate(treemap(n, viewport)),
{
    lemma_node_tiles(normalized(n), viewport, Seq::empty());
}

/// Zero weights leave no trace: below a root that has children, every
/// rectangle of the treemap belongs to a leaf of positive weight.
pub proof fn law_no_zero_weight_cells(n: Node, viewport: Area)
    requires
        n.children.len() > 0,
        viewport.w >= 0,
        viewport.h >= 0,
    ensures
        all_weighted(treemap(n, viewport)),
{
    lemma_normalized(n);
    lemma_node_tiles(normalized(n), viewport, Seq::empty());
}


/// The best slice has the greatest mean aspect score among the lengths
/// `1..=k`, and every shorter slice scores strictly less.
pub proof fn lemma_best_slice_is_first_max(
    s: Seq<Node>,
    start: int,
    k: int,
    long: int,
    cross: int,
    total: int,
)
    requires
        k >= 1,
    ensures
        forall|m: int|
            1 <= m <= k ==> #[trigger] mean_score(s, start, m, long, cross, total) <= mean_score(
                s,
                start,
                best_slice(s, start, k, long, cross, total),
                long,
                cross,
                total,
            ),
        forall|m: int|
            1 <= m < best_slice(s, start, k, long, cross, total) ==> #[trigger] mean_score(
                s,
                start,
                m,
                long,
                cross,
                total,
            ) < mean_score(s, start, best_slice(s, start, k, long, cross, total), long, cross, total),
    decreases k,
{
    if k > 1 {
        lemma_best_slice_is_first_max(s, start, k - 1, long, cross, total);
        lemma_best_slice_range(s, start, k - 1, long, cross, total);
    }
}

proof fn lemma_score_sum_nonneg(s: Seq<Node>, start: int, n: int, k: int, long: int, cross: int, total: int)
    ensures
        score_sum(s, start, n, k, long, cross, total) >= 0,
    decreases k,
{
    if k > 0 {
        lemma_score_sum_nonneg(s, start, n, k - 1, long, cross, total);
        let part = sum_range(s, start, start + n);
        let a = long * part * part;
        let b = cross * s[start + k - 1].value * total;
        if a > 0 && b > 0 {
            assert(ASPECT_SCALE as int * a / b >= 0 && ASPECT_SCALE as int * b / a >= 0) by (nonlinear_arith)
                requires
                    a > 0,
                    b > 0,
            ;
        }
    }
}

proof fn lemma_score_sum_same(
    s1: Seq<Node>,
    s2: Seq<Node>,
    start: int,
    n1: int,
    n2: int,
    k: int,
    long: int,
    cross: int,
    total: int,
)
    requires
        sum_range(s1, start, start + n1) == sum_range(s2, start, start + n2),
        forall|j: int| start <= j < start + k ==> #[trigger] s1[j].value == s2[j].value,
    ensures
        score_sum(s1, start, n1, k, long, cross, total) == score_sum(s2, start, n2, k, long, cross, total),
    decreases k,
{
    if k > 0 {
        lemma_score_sum_same(s1, s2, start, n1, n2, k - 1, long, cross, total);
    }
}

proof fn lemma_push_sums(s: Seq<Node>, z: Node, lo: int, hi: int)
    requires
        0 <= lo <= hi <= s.len(),
        z.value == 0,
    ensures
        sum_range(s.push(z), lo, hi) == sum_range(s, lo, hi),
        sum_range(s.push(z), lo, s.len() + 1int) == sum_range(s, lo, s.len() as int),
{
    lemma_sum_range_same(s.push(z), s, lo, hi);
    lemma_sum_range_same(s.push(z), s, lo, s.len() as int);
}

proof fn lemma_push_best(s: Seq<Node>, z: Node, start: int, k: int, long: int, cross: int, total: int)
    requires
        0 <= start,
        1 <= k <= s.len() - start,
        z.value == 0,
    ensures
        best_slice(s.push(z), start, k, long, cross, total) == best_slice(s, start, k, long, cross, total),
        forall|m: int|
            1 <= m <= k ==> #[trigger] mean_score(s.push(z), start, m, long, cross, total) == mean_score(
                s,
                start,
                m,
                long,
                cross,
                total,
            ),
    decreases k,
{
    let t = s.push(z);
    assert forall|m: int| 1 <= m <= k implies #[trigger] mean_score(t, start, m, long, cross, total)
        == mean_score(s, start, m, long, cross, total) by {
        lemma_push_sums(s, z, start, start + m);
        lemma_score_sum_same(t, s, start, m, m, m, long, cross, total);
    }
    if k > 1 {
        lemma_push_best(s, z, start, k - 1, long, cross, total);
        lemma_best_slice_range(s, start, k - 1, long, cross, total);
    }
}

proof fn lemma_push_slice(
    s: Seq<Node>,
    z: Node,
    start: int,
    k: int,
    end: int,
    r1: Area,
    wide: bool,
    part: int,
    path: Seq<usize>,
)
    requires
        0 <= start <= k <= end <= s.len(),
        z.value == 0,
    ensures
        place_slice(s.push(z), start, k, end, r1, wide, part, path) == place_slice(
            s,
            start,
            k,
            end,
            r1,
            wide,
            part,
            path,
        ),
    decreases end - k,
{
    if k < end {
        lemma_push_slice(s, z, start, k + 1, end, r1, wide, part, path);
        lemma_push_sums(s, z, start, k);
        lemma_push_sums(s, z, start, k + 1);
        assert(s.push(z)[k] == s[k]);
        assert(slot(s.push(z), start, k, r1, wide, part) == slot(s, start, k, r1, wide, part));
    }
}

proof fn lemma_push_group(s: Seq<Node>, z: Node, start: int, a: Area, path: Seq<usize>)
    requires
        0 <= start <= s.len(),
        z.value == 0,
    ensures
        layout_group(s.push(z), start, a, path) == layout_group(s, start, a, path),
    decreases s.len() - start,
{
    let t = s.push(z);
    lemma_push_sums(s, z, start, start);
    let total = sum_range(s, start, s.len() as int);
    if start == s.len() {
        assert(sum_range(t, start, start + 1) == sum_range(t, start, start) + t[start].value);
        assert(layout_group(t, start, a, path) =~= Seq::<Placed>::empty());
    } else if total > 0 {
        let wide = a.w > a.h;
        let long = if wide { a.w } else { a.h };
        let cross = if wide { a.h } else { a.w };
        let k = s.len() - start;
        lemma_push_best(s, z, start, k, long, cross, total);
        let b = best_slice(s, start, k, long, cross, total);
        lemma_best_slice_range(s, start, k, long, cross, total);
        lemma_best_slice_is_first_max(s, start, k, long, cross, total);
        // The slice that also takes the appended item scores the same total
        // over one more item, so its mean is no greater.
        let part = sum_range(s, start, s.len() as int);
        assert(sum_range(t, start, start + k + 1) == part) by {
            lemma_push_sums(s, z, start, start + k);
        }
        lemma_push_sums(s, z, start, start + k);
        lemma_score_sum_same(t, s, start, k + 1, k, k, long, cross, total);
        let zv = t[start + k].value as int;
        assert(zv == 0);
        assert(cross * zv * total == 0) by (nonlinear_arith)
            requires
                zv == 0,
        ;
        assert(aspect_score(long * part * part, cross * zv * total) == 0);
        let sum_k = score_sum(s, start, k, k, long, cross, total);
        lemma_score_sum_nonneg(s, start, k, k, long, cross, total);
        assert(score_sum(t, start, k + 1, k + 1, long, cross, total) == sum_k);
        lemma_div_is_ordered_by_denominator(sum_k, k, k + 1);
        assert(mean_score(t, start, k + 1, long, cross, total) <= mean_score(s, start, k, long, cross, total));
        assert(best_slice(t, start, k + 1, long, cross, total) == b);
        lemma_push_sums(s, z, start, start + b);
        let slice_part = sum_range(s, start, start + b);
        let c = share(long, slice_part, total);
        let r1 = if wide {
            Area { x: a.x, y: a.y, w: c, h: a.h }
        } else {
            Area { x: a.x, y: a.y, w: a.w, h: c }
        };
        let r2 = if wide {
            Area { x: a.x + c, y: a.y, w: a.w - c, h: a.h }
        } else {
            Area { x: a.x, y: a.y + c, w: a.w, h: a.h - c }
        };
        lemma_push_slice(s, z, start, start, start + b, r1, wide, slice_part, path);
        lemma_push_group(s, z, start + b, r2, path);
    }
}

/// Zero weights do not disturb their siblings: giving an internal node one
/// more child, of weight zero, after the others leaves its layout unchanged.
/// (Normalizing puts children of weight zero after all others.)
pub proof fn law_zero_weight_child(n: Node, z: Node, a: Area, path: Seq<usize>)
    requires
        n.children.len() > 0,
        z.value == 0,
    ensures
        layout_node(Node { children: n.children.push(z), ..n }, a, path) == layout_node(n, a, path),
{
    lemma_push_group(n.children, z, 0, a, path);
}

/// A root with a single leaf child of positive weight is laid out as one
/// rectangle: the whole viewport, given to that child.
pub proof fn law_single_child(n: Node, viewport: Area)
    requires
        n.children.len() == 1,
        n.children[0].children.len() == 0,
        n.children[0].value > 0,
        viewport.w >= 0,
        viewport.h >= 0,
    ensures
        treemap(n, viewport) == seq![
            Placed {
                path: seq![0usize],
                name: n.children[0].name,
                value: n.children[0].value,
                area: viewport,
            },
        ],
{
    let c = n.children[0];
    lemma_normalized(n);
    lemma_normalized_all(n.children);
    lemma_normalized(c);
    let m = normalized(n);
    let s = m.children;
    assert(normalized_all(n.children) == seq![normalized(c)]);
    assert(normalized_all(n.children).subrange(0, 0) =~= Seq::<Node>::empty());
    assert(s =~= seq![normalized(c)]);
    let d = s[0];
    assert(d.children.len() == 0 && d.value == c.value && d.name == c.name);
    let v = d.value as int;
    assert(sum_range(s, 0, 0) == 0);
    assert(sum_range(s, 0, 1) == sum_range(s, 0, 0) + s[0].value);
    assert(sum_range(s, 0, 1) == v);
    let a = viewport;
    let wide = a.w > a.h;
    let long = if wide { a.w } else { a.h };
    let cross = if wide { a.h } else { a.w };
    assert(best_slice(s, 0, 1, long, cross, v) == 1);
    lemma_share(long, v, v, v);
    lemma_share(if wide { a.h } else { a.w }, 0, v, v);
    let r1 = if wide {
        Area { x: a.x, y: a.y, w: long, h: a.h }
    } else {
        Area { x: a.x, y: a.y, w: a.w, h: long }
    };
    assert(r1 == a);
    let r2 = if wide {
        Area { x: a.x + long, y: a.y, w: a.w - long, h: a.h }
    } else {
        Area { x: a.x, y: a.y + long, w: a.w, h: a.h - long }
    };
    assert(sum_range(s, 0, 0) == 0);
    assert(slot(s, 0, 0, r1, wide, v) == a);
    let leaf = seq![Placed { path: Seq::<usize>::empty().push(0usize), name: d.name, value: d.value, area: a }];
    assert(place_slice(s, 0, 1, 1, r1, wide, v, Seq::empty()) =~= Seq::<Placed>::empty());
    assert(layout_node(d, a, Seq::<usize>::empty().push(0usize)) == leaf);
    assert(place_slice(s, 0, 0, 1, r1, wide, v, Seq::empty()) == layout_node(
        d,
        a,
        Seq::<usize>::empty().push(0usize),
    ) + place_slice(s, 0, 1, 1, r1, wide, v, Seq::empty()));
    assert(place_slice(s, 0, 0, 1, r1, wide, v, Seq::empty()) =~= leaf);
    assert(layout_group(s, 1, r2, Seq::empty()) =~= Seq::<Placed>::empty());
    assert(layout_group(s, 0, a, Seq::empty()) =~= leaf + Seq::<Placed>::empty());
    assert(Seq::<usize>::empty().push(0usize) =~= seq![0usize]);
}

/// Determinism: the treemap depends on the tree and the viewport alone, so
/// equal inputs give equal layouts.
pub proof fn law_deterministic(t1: Node, t2: Node, a1: Area, a2: Area)
    requires
        t1 == t2,
        a1 == a2,
    ensures
        treemap(t1, a1) == treemap(t2, a2),
{
}

} // verus!
