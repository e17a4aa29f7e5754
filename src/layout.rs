use vstd::prelude::*;
use vstd::arithmetic::div_mod::{lemma_div_is_ordered, lemma_div_multiples_vanish, lemma_div_pos_is_pos};
use vstd::arithmetic::mul::lemma_mul_inequality;
use crate::geometry::{bounded, Area, Rect};
use crate::tree::{
    fits, lemma_normalized, normalize, normalized, lemma_sum_range_nonneg, lemma_sum_range_split, lemma_views, sum_range, views, weight, weights_fit, Node,
    Tree,
};

verus! {

/// Fixed-point unit of an aspect score: a square scores this much.
pub const ASPECT_SCALE: u128 = 1048576;

/// A leaf of the layout: the node at `path`, with its name and weight, and
/// the rectangle it was given.
pub ghost struct Placed {
    pub path: Seq<usize>,
    pub name: Seq<char>,
    pub value: nat,
    pub area: Area,
}

/// How square a rectangle is whose side lengths stand in the ratio `a : b`:
/// `min / max` in units of `ASPECT_SCALE`, rounded down; zero for a
/// degenerate rectangle.
pub open spec fn aspect_score(a: int, b: int) -> int {
    if a <= 0 || b <= 0 {
        0
    } else if a <= b {
        ASPECT_SCALE as int * a / b
    } else {
        ASPECT_SCALE as int * b / a
    }
}

/// Sum of the aspect scores of the first `k` items of the candidate slice
/// `s[start..start + n]`, in a group of weight `total` laid along a side of
/// length `long`, across a side of length `cross`.
///
/// The slice would be `long * part / total` thick and an item of weight `v`
/// in it `cross * v / part` long, where `part` is the slice's weight; the two
/// stand in the ratio `long * part * part : cross * v * total`.
pub open spec fn score_sum(
    s: Seq<Node>,
    start: int,
    n: int,
    k: int,
    long: int,
    cross: int,
    total: int,
) -> int
    decreases k,
{
    if k <= 0 {
        0
    } else {
        let part = sum_range(s, start, start + n);
        score_sum(s, start, n, k - 1, long, cross, total) + aspect_score(
            long * part * part,
            cross * s[start + k - 1].value * total,
        )
    }
}

/// Mean aspect score of the slice of the `n` items from `start`, rounded down.
pub open spec fn mean_score(s: Seq<Node>, start: int, n: int, long: int, cross: int, total: int) -> int {
    score_sum(s, start, n, n, long, cross, total) / n
}

/// The first slice length among `1..=k` with the greatest mean aspect score.
pub open spec fn best_slice(s: Seq<Node>, start: int, k: int, long: int, cross: int, total: int) -> int
    decreases k,
{
    if k <= 1 {
        1
    } else {
        let b = best_slice(s, start, k - 1, long, cross, total);
        if mean_score(s, start, k, long, cross, total) > mean_score(s, start, b, long, cross, total) {
            k
        } else {
            b
        }
    }
}

pub proof fn lemma_best_slice_range(s: Seq<Node>, start: int, k: int, long: int, cross: int, total: int)
    ensures
        1 <= best_slice(s, start, k, long, cross, total),
        k >= 1 ==> best_slice(s, start, k, long, cross, total) <= k,
    decreases k,
{
    if k > 1 {
        lemma_best_slice_range(s, start, k - 1, long, cross, total);
    }
}

/// `len * part / whole`, rounded down: the share of a side of length `len`
/// that a weight `part` of `whole` receives.
pub open spec fn share(len: int, part: int, whole: int) -> int {
    len * part / whole
}

/// The layout of a node in the rectangle `a`: a leaf takes all of it, an
/// internal node shares it among its children.
pub open spec fn layout_node(n: Node, a: Area, path: Seq<usize>) -> Seq<Placed>
    decreases n, 2int, 0int,
{
    if n.children.len() == 0 {
        seq![Placed { path, name: n.name, value: n.value, area: a }]
    } else {
        layout_group(n.children, 0, a, path)
    }
}

/// The layout of the siblings `s[start..]` in the rectangle `a`.
///
/// The best slice is cut off across the longer side (across the width when
/// the rectangle is wider than tall), its items are laid out in it, and the
/// rest of the group is laid out in what remains. A group of no weight takes
/// nothing.
pub open spec fn layout_group(s: Seq<Node>, start: int, a: Area, path: Seq<usize>) -> Seq<Placed>
    decreases s, 1int, s.len() - start,
{
    let total = sum_range(s, start, s.len() as int);
    if start < 0 || start >= s.len() || total <= 0 {
        seq![]
    } else {
        let wide = a.w > a.h;
        let long = if wide { a.w } else { a.h };
        let cross = if wide { a.h } else { a.w };
        let n = best_slice(s, start, s.len() - start, long, cross, total);
        proof {
            lemma_best_slice_range(s, start, s.len() - start, long, cross, total);
        }
        let part = sum_range(s, start, start + n);
        let c = share(long, part, total);
        let r1 = if wide {
            Area { x: a.x, y: a.y, w: c, h: a.h }
        } else {
            Area { x: a.x, y: a.y, w: a.w, h: c }
        };
        let r2 = if wide {
            Area { x: a.x + c, y: a.y, w: a.w - c, h: a.h }
        } else {
            Area { x: a.x, y: a.y + c, w: a.w, h: a.h - c }
        };
        place_slice(s, start, start, start + n, r1, wide, part, path) + layout_group(
            s,
            start + n,
            r2,
            path,
        )
    }
}

/// The rectangle of item `k` of the slice `s[start..]` of weight `part`
/// that fills `r1`: items follow each other down the slice when it is a
/// column (`wide`), across it when it is a row.
pub open spec fn slot(s: Seq<Node>, start: int, k: int, r1: Area, wide: bool, part: int) -> Area {
    let run = if wide { r1.h } else { r1.w };
    let lo = share(run, sum_range(s, start, k), part);
    let hi = share(run, sum_range(s, start, k + 1), part);
    if wide {
        Area { x: r1.x, y: r1.y + lo, w: r1.w, h: hi - lo }
    } else {
        Area { x: r1.x + lo, y: r1.y, w: hi - lo, h: r1.h }
    }
}

/// The layout of the items `s[k..end]` of a slice that starts at `start`;
/// an item of no weight takes nothing.
pub open spec fn place_slice(
    s: Seq<Node>,
    start: int,
    k: int,
    end: int,
    r1: Area,
    wide: bool,
    part: int,
    path: Seq<usize>,
) -> Seq<Placed>
    decreases s, 0int, end - k,
{
    if k < 0 || k >= end || k >= s.len() {
        seq![]
    } else {
        let here = if s[k].value == 0 {
            seq![]
        } else {
            layout_node(s[k], slot(s, start, k, r1, wide, part), path.push(k as usize))
        };
        here + place_slice(s, start, k + 1, end, r1, wide, part, path)
    }
}


proof fn lemma_sum_range_within(s: Seq<Node>, lo: int, hi: int)
    requires
        0 <= lo <= hi <= s.len(),
    ensures
        0 <= sum_range(s, lo, hi) <= weight(s),
{
    lemma_sum_range_split(s, 0, lo, s.len() as int);
    lemma_sum_range_split(s, lo, hi, s.len() as int);
    lemma_sum_range_nonneg(s, 0, lo);
    lemma_sum_range_nonneg(s, lo, hi);
    lemma_sum_range_nonneg(s, hi, s.len() as int);
}

/// Total weight of `s[lo..hi]`.
fn sum_between(s: &Vec<Tree>, lo: usize, hi: usize) -> (r: u64)
    requires
        lo <= hi <= s.len(),
        weight(views(s@)) <= u32::MAX,
    ensures
        r == sum_range(views(s@), lo as int, hi as int),
{
    proof {
        lemma_views(s@);
    }
    let ghost c = views(s@);
    let mut r: u64 = 0;
    let mut k: usize = lo;
    while k < hi
        invariant
            lo <= k <= hi <= s.len(),
            c == views(s@),
            c.len() == s.len(),
            forall|j: int| 0 <= j < c.len() ==> #[trigger] c[j] == s@[j]@,
            weight(c) <= u32::MAX,
            r == sum_range(c, lo as int, k as int),
        decreases hi - k,
    {
        proof {
            lemma_sum_range_within(c, lo as int, k as int + 1);
        }
        r = r + s[k].value as u64;
        k = k + 1;
    }
    r
}

fn aspect(a: u128, b: u128) -> (r: u128)
    requires
        a <= 0x1_0000_0000_0000_0000_0000_0000,
        b <= 0x1_0000_0000_0000_0000_0000_0000,
    ensures
        r == aspect_score(a as int, b as int),
        r <= ASPECT_SCALE,
{
    if a == 0 || b == 0 {
        0
    } else if a <= b {
        proof {
            assert((ASPECT_SCALE as int) * (a as int) / (b as int) <= ASPECT_SCALE as int) by (nonlinear_arith)
                requires
                    0 < a <= b,
            ;
        }
        ASPECT_SCALE * a / b
    } else {
        proof {
            assert((ASPECT_SCALE as int) * (b as int) / (a as int) <= ASPECT_SCALE as int) by (nonlinear_arith)
                requires
                    0 < b < a,
            ;
        }
        ASPECT_SCALE * b / a
    }
}

proof fn lemma_product_bound(x: int, y: int, z: int)
    requires
        0 <= x <= u32::MAX,
        0 <= y <= u32::MAX,
        0 <= z <= u32::MAX,
    ensures
        0 <= x * y <= 0x1_0000_0000_0000_0000,
        0 <= x * y * z <= 0x1_0000_0000_0000_0000_0000_0000,
{
    assert(0 <= x * y <= 0x1_0000_0000_0000_0000) by (nonlinear_arith)
        requires
            0 <= x <= u32::MAX,
            0 <= y <= u32::MAX,
    ;
    assert(0 <= (x * y) * z <= 0x1_0000_0000_0000_0000 * u32::MAX) by (nonlinear_arith)
        requires
            0 <= x * y <= 0x1_0000_0000_0000_0000,
            0 <= z <= u32::MAX,
    ;
}

proof fn lemma_mul_u32(x: int, y: int)
    requires
        0 <= x <= u32::MAX,
        0 <= y <= u32::MAX,
    ensures
        0 <= x * y <= u64::MAX,
{
    assert(0 <= x * y <= 0xFFFF_FFFE_0000_0001) by (nonlinear_arith)
        requires
            0 <= x <= u32::MAX,
            0 <= y <= u32::MAX,
    ;
}

/// Length of the best slice of the group `s[start..]` of weight `total`,
/// laid along a side of length `long`, across a side of length `cross`.
fn best_slice_len(s: &Vec<Tree>, start: usize, long: u32, cross: u32, total: u64) -> (n: usize)
    requires
        start < s.len(),
        weight(views(s@)) <= u32::MAX,
        total == sum_range(views(s@), start as int, s.len() as int),
    ensures
        n == best_slice(
            views(s@),
            start as int,
            s.len() - start,
            long as int,
            cross as int,
            total as int,
        ),
{
    proof {
        lemma_views(s@);
        lemma_sum_range_within(views(s@), start as int, s.len() as int);
    }
    let ghost c = views(s@);
    let count = s.len() - start;
    let mut best: usize = 1;
    let mut best_mean: u128 = 0;
    let mut part: u64 = 0;
    let mut m: usize = 0;
    while m < count
        invariant
            start < s.len(),
            count == s.len() - start,
            m <= count,
            c == views(s@),
            c.len() == s.len(),
            forall|j: int| 0 <= j < c.len() ==> #[trigger] c[j] == s@[j]@,
            weight(c) <= u32::MAX,
            total == sum_range(c, start as int, s.len() as int),
            part == sum_range(c, start as int, start + m),
            m == 0 ==> best == 1,
            m >= 1 ==> best == best_slice(c, start as int, m as int, long as int, cross as int, total as int),
            m >= 1 ==> best_mean == mean_score(c, start as int, best as int, long as int, cross as int, total as int),
        decreases count - m,
    {
        let n: usize = m + 1;
        proof {
            lemma_sum_range_within(c, start as int, start + n);
        }
        part = part + s[start + m].value as u64;
        let ghost sz = 0x1_0000_0000_0000_0000_0000_0000int;
        proof {
            lemma_product_bound(long as int, part as int, part as int);
        }
        let a: u128 = long as u128 * part as u128 * part as u128;
        let mut acc: u128 = 0;
        let mut i: usize = 0;
        while i < n
            invariant
                n == m + 1,
                m < count,
                count == s.len() - start,
                i <= n,
                c == views(s@),
                c.len() == s.len(),
                forall|j: int| 0 <= j < c.len() ==> #[trigger] c[j] == s@[j]@,
                weight(c) <= u32::MAX,
                total == sum_range(c, start as int, s.len() as int),
                part == sum_range(c, start as int, start + n),
                a == long * part * part,
                a <= 0x1_0000_0000_0000_0000_0000_0000,
                acc == score_sum(c, start as int, n as int, i as int, long as int, cross as int, total as int),
                acc <= i * ASPECT_SCALE,
            decreases n - i,
        {
            let v = s[start + i].value;
            proof {
                lemma_sum_range_within(c, start as int, s.len() as int);
                lemma_product_bound(cross as int, v as int, total as int);
            }
            let b: u128 = cross as u128 * v as u128 * total as u128;
            let sc = aspect(a, b);
            acc = acc + sc;
            i = i + 1;
        }
        let mean = acc / n as u128;
        if m == 0 || mean > best_mean {
            best = n;
            best_mean = mean;
        }
        m = m + 1;
    }
    best
}


/// A leaf of the layout: the node reached from the root by the child indices
/// `path` (in the normalized tree), its name and weight, and its rectangle.
#[derive(Debug, PartialEq, Eq)]
pub struct Cell {
    pub path: Vec<usize>,
    pub name: String,
    pub value: u32,
    pub rect: Rect,
}

impl View for Cell {
    type V = Placed;

    open spec fn view(&self) -> Placed {
        Placed { path: self.path@, name: self.name@, value: self.value as nat, area: self.rect@ }
    }
}

/// The models of a sequence of cells.
pub open spec fn placed(s: Seq<Cell>) -> Seq<Placed> {
    s.map_values(|c: Cell| c@)
}

/// Bounds on `share`: it grows with the part and never exceeds the side.
pub proof fn lemma_share(len: int, lower: int, upper: int, whole: int)
    requires
        0 <= len,
        0 <= lower <= upper <= whole,
        0 < whole,
    ensures
        0 <= share(len, lower, whole) <= share(len, upper, whole) <= len,
        share(len, whole, whole) == len,
        share(len, 0, whole) == 0,
{
    lemma_mul_inequality(lower, upper, len);
    lemma_mul_inequality(upper, whole, len);
    assert(len * lower == lower * len && len * upper == upper * len && len * whole == whole * len) by (nonlinear_arith);
    assert(0 <= len * lower) by (nonlinear_arith)
        requires
            0 <= len,
            0 <= lower,
    ;
    lemma_div_pos_is_pos(len * lower, whole);
    lemma_div_is_ordered(len * lower, len * upper, whole);
    lemma_div_is_ordered(len * upper, len * whole, whole);
    lemma_div_multiples_vanish(len, whole);
    assert(whole * len == len * whole) by (nonlinear_arith);
}

fn copy_path(p: &Vec<usize>) -> (r: Vec<usize>)
    ensures
        r@ == p@,
{
    let mut r: Vec<usize> = Vec::new();
    let mut i: usize = 0;
    while i < p.len()
        invariant
            i <= p.len(),
            r@ == p@.subrange(0, i as int),
        decreases p.len() - i,
    {
        r.push(p[i]);
        i = i + 1;
        assert(r@ =~= p@.subrange(0, i as int));
    }
    assert(p@.subrange(0, p.len() as int) =~= p@);
    r
}

/// Appends the layout of `n` in `a` to `out`; `path` locates `n`.
fn place_node(n: &Tree, a: Rect, path: &mut Vec<usize>, out: &mut Vec<Cell>)
    requires
        fits(n@),
        bounded(a@),
    ensures
        final(path)@ == old(path)@,
        placed(final(out)@) == placed(old(out)@) + layout_node(n@, a@, old(path)@),
    decreases n,
{
    let ghost path0 = path@;
    let ghost out0 = placed(out@);
    proof {
        lemma_views(n.children@);
    }
    if n.children.len() == 0 {
        let cell = Cell { path: copy_path(path), name: n.name.clone(), value: n.value, rect: a };
        out.push(cell);
        proof {
            assert(placed(out@) =~= out0.push(cell@));
            assert(layout_node(n@, a@, path0) == seq![cell@]);
            assert(out0.push(cell@) =~= out0 + seq![cell@]);
        }
        return;
    }
    let s = &n.children;
    let ghost c = views(s@);
    assert(n@.children == c);
    assert(weight(c) <= u32::MAX);
    let ghost goal = out0 + layout_group(c, 0, a@, path0);
    let mut start: usize = 0;
    let mut area: Rect = a;
    assert(placed(out@) + layout_group(c, 0, a@, path0) == goal);
    while start < s.len()
        invariant
            s@ == n.children@,
            c == views(s@),
            c == n@.children,
            c.len() == s.len(),
            forall|j: int| 0 <= j < c.len() ==> #[trigger] c[j] == s@[j]@,
            fits(n@),
            weight(c) <= u32::MAX,
            path@ == path0,
            start <= s.len(),
            bounded(area@),
            placed(out@) + layout_group(c, start as int, area@, path0) == goal,
        decreases s.len() - start,
    {
        let total = sum_between(s, start, s.len());
        if total == 0 {
            proof {
                assert(layout_group(c, start as int, area@, path0) == Seq::<Placed>::empty());
                assert(layout_group(c, s.len() as int, area@, path0) == Seq::<Placed>::empty());
            }
            start = s.len();
        } else {
            let wide = area.w > area.h;
            let long = if wide { area.w } else { area.h };
            let cross = if wide { area.h } else { area.w };
            let count = best_slice_len(s, start, long, cross, total);
            proof {
                lemma_best_slice_range(c, start as int, s.len() - start, long as int, cross as int, total as int);
            }
            let end = start + count;
            let part = sum_between(s, start, end);
            proof {
                lemma_sum_range_within(c, start as int, end as int);
                lemma_sum_range_split(c, start as int, end as int, s.len() as int);
                lemma_sum_range_nonneg(c, end as int, s.len() as int);
                lemma_sum_range_nonneg(c, start as int, end as int);
                lemma_share(long as int, part as int, total as int, total as int);
                lemma_mul_u32(long as int, part as int);
            }
            let cut = (long as u64 * part / total) as u32;
            let r1 = if wide {
                Rect { x: area.x, y: area.y, w: cut, h: area.h }
            } else {
                Rect { x: area.x, y: area.y, w: area.w, h: cut }
            };
            let r2 = if wide {
                Rect { x: area.x + cut, y: area.y, w: area.w - cut, h: area.h }
            } else {
                Rect { x: area.x, y: area.y + cut, w: area.w, h: area.h - cut }
            };
            let ghost rest = layout_group(c, end as int, r2@, path0);
            assert(layout_group(c, start as int, area@, path0) == place_slice(
                c,
                start as int,
                start as int,
                end as int,
                r1@,
                wide,
                part as int,
                path0,
            ) + rest);
            let mut k: usize = start;
            let mut before: u64 = 0;
            while k < end
                invariant
                    s@ == n.children@,
                    c == views(s@),
                    c == n@.children,
                    c.len() == s.len(),
                    forall|j: int| 0 <= j < c.len() ==> #[trigger] c[j] == s@[j]@,
                    fits(n@),
                    weight(c) <= u32::MAX,
                    path@ == path0,
                    start <= k <= end <= s.len(),
                    bounded(r1@),
                    before == sum_range(c, start as int, k as int),
                    part == sum_range(c, start as int, end as int),
                    part <= u32::MAX,
                    placed(out@) + place_slice(
                        c,
                        start as int,
                        k as int,
                        end as int,
                        r1@,
                        wide,
                        part as int,
                        path0,
                    ) + rest == goal,
                decreases end - k,
            {
                let v = s[k].value;
                let ghost out1 = placed(out@);
                let ghost tail = place_slice(c, start as int, k + 1, end as int, r1@, wide, part as int, path0);
                proof {
                    lemma_sum_range_split(c, start as int, k + 1, end as int);
                    lemma_sum_range_nonneg(c, k + 1, end as int);
                    lemma_sum_range_nonneg(c, start as int, k as int);
                }
                if v != 0 {
                    let run = if wide { r1.h } else { r1.w };
                    proof {
                        lemma_share(run as int, before as int, before + v, part as int);
                        lemma_mul_u32(run as int, before as int);
                        lemma_mul_u32(run as int, before + v);
                    }
                    let lo = (run as u64 * before / part) as u32;
                    let hi = (run as u64 * (before + v as u64) / part) as u32;
                    let r = if wide {
                        Rect { x: r1.x, y: r1.y + lo, w: r1.w, h: hi - lo }
                    } else {
                        Rect { x: r1.x + lo, y: r1.y, w: hi - lo, h: r1.h }
                    };
                    assert(r@ == slot(c, start as int, k as int, r1@, wide, part as int));
                    assert(fits(n@.children[k as int]));
                    assert(decreases_to!(n => n.children@[k as int]));
                    path.push(k);
                    place_node(&s[k], r, path, out);
                    path.pop();
                    proof {
                        assert(path@ =~= path0);
                        assert(out1 + place_slice(c, start as int, k as int, end as int, r1@, wide, part as int, path0)
                            =~= placed(out@) + tail);
                    }
                } else {
                    proof {
                        assert(place_slice(c, start as int, k as int, end as int, r1@, wide, part as int, path0)
                            =~= tail);
                    }
                }
                before = before + v as u64;
                k = k + 1;
            }
            start = end;
            area = r2;
        }
    }
    proof {
        assert(placed(out@) + Seq::<Placed>::empty() =~= placed(out@));
    }
}


/// Why a layout could not be computed.
#[derive(Clone, Copy, Debug, PartialEq, Eq, Structural)]
pub enum LayoutError {
    /// The viewport reaches past the `u32` coordinate range.
    ViewportOverflow,
    /// Some sibling group weighs more than `u32::MAX` in total.
    WeightOverflow,
}

/// The layout of `n` in `a`, with the tree normalized first.
pub open spec fn treemap(n: Node, a: Area) -> Seq<Placed> {
    layout_node(normalized(n), a, Seq::empty())
}

/// The layout of `tree` in `viewport`, children taken in the order given.
///
/// Fails with `ViewportOverflow` when the viewport's far edges pass
/// `u32::MAX`, else with `WeightOverflow` when some sibling group weighs
/// more than `u32::MAX`.
pub fn layout(tree: &Tree, viewport: Rect) -> (r: Result<Vec<Cell>, LayoutError>)
    ensures
        !bounded(viewport@) ==> r == Err::<Vec<Cell>, LayoutError>(LayoutError::ViewportOverflow),
        bounded(viewport@) && !fits(tree@) ==> r == Err::<Vec<Cell>, LayoutError>(
            LayoutError::WeightOverflow,
        ),
        bounded(viewport@) && fits(tree@) ==> r is Ok && placed(r->Ok_0@) == layout_node(
            tree@,
            viewport@,
            Seq::empty(),
        ),
{
    if viewport.x as u64 + viewport.w as u64 > u32::MAX as u64 || viewport.y as u64
        + viewport.h as u64 > u32::MAX as u64 {
        return Err(LayoutError::ViewportOverflow);
    }
    if !weights_fit(tree) {
        return Err(LayoutError::WeightOverflow);
    }
    let mut path: Vec<usize> = Vec::new();
    let mut out: Vec<Cell> = Vec::new();
    place_node(tree, viewport, &mut path, &mut out);
    proof {
        assert(placed(Seq::<Cell>::empty()) =~= Seq::<Placed>::empty());
        assert(Seq::<Placed>::empty() + layout_node(tree@, viewport@, Seq::empty()) =~= layout_node(
            tree@,
            viewport@,
            Seq::empty(),
        ));
    }
    Ok(out)
}

/// The treemap of `tree` in `viewport`: the tree is normalized (every
/// sibling group stably sorted, heaviest first), then laid out.
///
/// Fails as `layout` does; normalizing changes no sibling group's weight.
pub fn squarified_treemap(tree: &Tree, viewport: Rect) -> (r: Result<Vec<Cell>, LayoutError>)
    ensures
        !bounded(viewport@) ==> r == Err::<Vec<Cell>, LayoutError>(LayoutError::ViewportOverflow),
        bounded(viewport@) && !fits(tree@) ==> r == Err::<Vec<Cell>, LayoutError>(
            LayoutError::WeightOverflow,
        ),
        bounded(viewport@) && fits(tree@) ==> r is Ok && placed(r->Ok_0@) == treemap(
            tree@,
            viewport@,
        ),
{
    if viewport.x as u64 + viewport.w as u64 > u32::MAX as u64 || viewport.y as u64
        + viewport.h as u64 > u32::MAX as u64 {
        return Err(LayoutError::ViewportOverflow);
    }
    if !weights_fit(tree) {
        return Err(LayoutError::WeightOverflow);
    }
    let sorted = normalize(tree);
    proof {
        lemma_normalized(tree@);
    }
    layout(&sorted, viewport)
}

} // verus!
