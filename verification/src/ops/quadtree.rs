//! Dynamic quadtree: a per-image adaptive spatial partition.
//!
//! The tree spends resolution where a split decision asks for it (in the learner, where
//! the mean per-pixel energy of a cell exceeds a threshold). The build is structural: a
//! cell is split into four quadrants while the depth limit, the minimum side and the
//! decision allow it; otherwise it becomes a leaf and every pixel it covers is assigned
//! to it. Whatever the decision, the leaves partition the image: every pixel lies in
//! exactly one leaf, the one `assign` names.
use vstd::prelude::*;
use vstd::arithmetic::div_mod::{lemma_fundamental_div_mod, lemma_fundamental_div_mod_converse};

verus! {

/// A built quadtree: leaf cells `[y0, x0, y1, x1)` and the per-pixel leaf index (`g*g`).
pub struct Quadtree {
    /// Leaf boxes, half-open `[y0, x0, y1, x1)`.
    pub cells: Vec<[usize; 4]>,
    /// Per-pixel (row-major) leaf-cell index.
    pub assign: Vec<u32>,
}

/// Pixel `p` of a `g`-wide image (row `p / g`, column `p % g`) lies in cell `c`.
pub open spec fn covers(c: [usize; 4], p: int, g: int) -> bool {
    &&& c[0] <= p / g < c[2]
    &&& c[1] <= p % g < c[3]
}

/// Cell `c` is a non-empty box inside `outer`.
pub open spec fn inside(c: [usize; 4], outer: [usize; 4]) -> bool {
    &&& outer[0] <= c[0] < c[2] <= outer[2]
    &&& outer[1] <= c[1] < c[3] <= outer[3]
}

/// Two boxes share no pixel.
pub open spec fn apart(a: [usize; 4], b: [usize; 4]) -> bool {
    a[2] <= b[0] || b[2] <= a[0] || a[3] <= b[1] || b[3] <= a[1]
}

/// The cells with indices in `[lo, hi)` are pairwise apart.
pub open spec fn pairwise_apart(cells: Seq<[usize; 4]>, lo: int, hi: int) -> bool {
    forall|s: int, t: int| lo <= s < hi && lo <= t < hi && s != t ==> apart(#[trigger] cells[s], #[trigger] cells[t])
}

/// The four quadrants of a box, split at its midpoints: top-left, top-right,
/// bottom-left, bottom-right.
pub open spec fn quadrants(c: [usize; 4]) -> Seq<[usize; 4]> {
    let my = ((c[0] + c[2]) / 2) as usize;
    let mx = ((c[1] + c[3]) / 2) as usize;
    seq![[c[0], c[1], my, mx], [c[0], mx, my, c[3]], [my, c[1], c[2], mx], [my, mx, c[2], c[3]]]
}

/// The shorter side of a box.
pub open spec fn short_side(c: [usize; 4]) -> int {
    let h = c[2] - c[0];
    let w = c[3] - c[1];
    if h < w { h } else { w }
}

/// The decision `split` takes on `c` (a deterministic decision returns `true` exactly when
/// `true` is a possible result).
pub open spec fn splits<F: Fn([usize; 4]) -> bool>(split: F, c: [usize; 4]) -> bool {
    split.ensures((c,), true)
}

/// `split` never allows both answers for the same box.
pub open spec fn deterministic<F: Fn([usize; 4]) -> bool>(split: F) -> bool {
    forall|c: [usize; 4]| !(#[trigger] split.ensures((c,), true) && split.ensures((c,), false))
}

/// Whether the build subdivides `c` at `depth`.
pub open spec fn subdivides<F: Fn([usize; 4]) -> bool>(
    split: F,
    c: [usize; 4],
    depth: int,
    max_depth: int,
    min_side: int,
) -> bool {
    depth < max_depth && short_side(c) >= 2 * min_side && splits(split, c)
}

/// The leaves the build produces for box `c` at `depth`, in emission order.
pub open spec fn leaf_cells<F: Fn([usize; 4]) -> bool>(
    split: F,
    c: [usize; 4],
    depth: int,
    max_depth: int,
    min_side: int,
) -> Seq<[usize; 4]>
    decreases max_depth - depth, 5int,
{
    if subdivides(split, c, depth, max_depth, min_side) {
        quadrant_leaves(split, c, depth, max_depth, min_side, 4)
    } else {
        seq![c]
    }
}

/// The leaves of the first `k` quadrants of `c` (the children of `c` at `depth`).
pub open spec fn quadrant_leaves<F: Fn([usize; 4]) -> bool>(
    split: F,
    c: [usize; 4],
    depth: int,
    max_depth: int,
    min_side: int,
    k: int,
) -> Seq<[usize; 4]>
    decreases max_depth - depth, k,
{
    if k <= 0 || depth >= max_depth {
        Seq::empty()
    } else {
        quadrant_leaves(split, c, depth, max_depth, min_side, k - 1) + leaf_cells(
            split,
            quadrants(c)[k - 1],
            depth + 1,
            max_depth,
            min_side,
        )
    }
}

/// Pixel `p = i * g + j` has row `i` and column `j`.
proof fn lemma_pixel(i: int, j: int, g: int)
    requires
        0 <= j < g,
        0 <= i,
    ensures
        (i * g + j) / g == i,
        (i * g + j) % g == j,
{
    lemma_fundamental_div_mod_converse(i * g + j, g, i, j);
}

/// Assign every pixel of the non-empty box `cell` to leaf `idx`.
fn fill(assign: &mut Vec<u32>, g: usize, cell: [usize; 4], idx: u32)
    requires
        g >= 1,
        g * g <= u32::MAX,
        old(assign)@.len() == g * g,
        cell[0] < cell[2] <= g,
        cell[1] < cell[3] <= g,
    ensures
        final(assign)@.len() == g * g,
        forall|p: int|
            0 <= p < g * g ==> #[trigger] final(assign)@[p] == if covers(cell, p, g as int) {
                idx
            } else {
                old(assign)@[p]
            },
{
    let ghost gi = g as int;
    let y0 = cell[0];
    let x0 = cell[1];
    let y1 = cell[2];
    let x1 = cell[3];
    for i in y0..y1
        invariant
            g >= 1,
            gi == g,
            y0 == cell[0],
            x0 == cell[1],
            y1 == cell[2],
            x1 == cell[3],
            y0 < y1 <= g,
            x0 < x1 <= g,
            g * g <= u32::MAX,
            assign@.len() == g * g,
            forall|p: int|
                0 <= p < g * g ==> #[trigger] assign@[p] == if covers(cell, p, gi) && p / gi < i {
                    idx
                } else {
                    old(assign)@[p]
                },
    {
        for j in x0..x1
            invariant
                g >= 1,
                gi == g,
                y0 == cell[0],
                x0 == cell[1],
                y1 == cell[2],
                x1 == cell[3],
                y0 <= i < y1 <= g,
                x0 < x1 <= g,
                g * g <= u32::MAX,
                assign@.len() == g * g,
                forall|p: int|
                    0 <= p < g * g ==> #[trigger] assign@[p] == if covers(cell, p, gi) && (p / gi < i
                        || (p / gi == i && p % gi < j)) {
                        idx
                    } else {
                        old(assign)@[p]
                    },
        {
            proof {
                lemma_pixel(i as int, j as int, gi);
                assert(i * gi + j < gi * gi) by (nonlinear_arith)
                    requires
                        0 <= i < gi,
                        0 <= j < gi,
                ;
            }
            let ghost before = assign@;
            assign.set(i * g + j, idx);
            proof {
                let pos = i * gi + j;
                assert forall|p: int| 0 <= p < g * g implies #[trigger] assign@[p] == if covers(
                    cell,
                    p,
                    gi,
                ) && (p / gi < i || (p / gi == i && p % gi < j + 1)) {
                    idx
                } else {
                    old(assign)@[p]
                } by {
                    lemma_fundamental_div_mod(p, gi);
                    if p != pos {
                        assert(assign@[p] == before[p]);
                        if p / gi == i && p % gi == j {
                            assert(p == gi * i + j);
                            assert(gi * i == i * gi) by (nonlinear_arith);
                        }
                    }
                }
            }
        }
    }
}

/// One level of the build: `cell` becomes a leaf or is split into four quadrants.
fn recurse<F: Fn([usize; 4]) -> bool>(
    g: usize,
    cell: [usize; 4],
    depth: usize,
    max_depth: usize,
    min_side: usize,
    split: &F,
    cells: &mut Vec<[usize; 4]>,
    assign: &mut Vec<u32>,
)
    requires
        g >= 1,
        min_side >= 1,
        g * g <= u32::MAX,
        old(assign)@.len() == g * g,
        cell[0] < cell[2] <= g,
        cell[1] < cell[3] <= g,
        old(cells)@.len() + (cell[2] - cell[0]) * (cell[3] - cell[1]) <= g * g,
        forall|c: [usize; 4]| #[trigger] split.requires((c,)),
        deterministic(*split),
    ensures
        final(assign)@.len() == g * g,
        final(cells)@ == old(cells)@ + leaf_cells(
            *split,
            cell,
            depth as int,
            max_depth as int,
            min_side as int,
        ),
        final(cells)@.len() > old(cells)@.len(),
        final(cells)@.len() <= old(cells)@.len() + (cell[2] - cell[0]) * (cell[3] - cell[1]),
        forall|t: int|
            old(cells)@.len() <= t < final(cells)@.len() ==> inside(#[trigger] final(cells)@[t], cell),
        pairwise_apart(final(cells)@, old(cells)@.len() as int, final(cells)@.len() as int),
        forall|p: int|
            0 <= p < g * g ==> if covers(cell, p, g as int) {
                old(cells)@.len() <= #[trigger] final(assign)@[p] < final(cells)@.len() && covers(
                    final(cells)@[final(assign)@[p] as int],
                    p,
                    g as int,
                )
            } else {
                final(assign)@[p] == old(assign)@[p]
            },
    decreases max_depth - depth,
{
    let y0 = cell[0];
    let x0 = cell[1];
    let y1 = cell[2];
    let x1 = cell[3];
    let hside = y1 - y0;
    let wside = x1 - x0;
    let side = if hside < wside {
        hside
    } else {
        wside
    };
    let ghost gi = g as int;
    let ghost di = depth as int;
    let ghost mdi = max_depth as int;
    let ghost msi = min_side as int;
    if depth < max_depth && side / 2 >= min_side && split(cell) {
        let my = y0 + (y1 - y0) / 2;
        let mx = x0 + (x1 - x0) / 2;
        let quads = [[y0, x0, my, mx], [y0, mx, my, x1], [my, x0, y1, mx], [my, mx, y1, x1]];
        assert(subdivides(*split, cell, di, mdi, msi));
        assert(quads@ =~= quadrants(cell));
        let ghost start = cells@.len() as int;
        let ghost old_assign = assign@;
        let ghost mut bounds: Seq<int> = seq![start];
        let ghost area = seq![
            (my - y0) * (mx - x0),
            (my - y0) * (x1 - mx),
            (y1 - my) * (mx - x0),
            (y1 - my) * (x1 - mx)
        ];
        proof {
            let (h1, h2, w1, w2) = (
                (my - y0) as int,
                (y1 - my) as int,
                (mx - x0) as int,
                (x1 - mx) as int,
            );
            assert(h1 * w1 + h1 * w2 + h2 * w1 + h2 * w2 == (h1 + h2) * (w1 + w2))
                by (nonlinear_arith);
            assert(h1 * w1 >= 1 && h1 * w2 >= 1 && h2 * w1 >= 1 && h2 * w2 >= 1)
                by (nonlinear_arith)
                requires
                    h1 >= 1,
                    h2 >= 1,
                    w1 >= 1,
                    w2 >= 1,
            ;
            assert(area[0] + area[1] + area[2] + area[3] == (y1 - y0) * (x1 - x0));
        }
        let mut k: usize = 0;
        while k < 4
            invariant
                0 <= k <= 4,
                g >= 1,
                gi == g,
                di == depth,
                mdi == max_depth,
                msi == min_side,
                min_side >= 1,
                g * g <= u32::MAX,
                depth < max_depth,
                cell[0] == y0 && cell[1] == x0 && cell[2] == y1 && cell[3] == x1,
                y0 < my < y1 <= g,
                x0 < mx < x1 <= g,
                quads@ == quadrants(cell),
                forall|c: [usize; 4]| #[trigger] split.requires((c,)),
                deterministic(*split),
                area.len() == 4,
                forall|a: int| 0 <= a < 4 ==> #[trigger] area[a] >= 1,
                forall|a: int|
                    0 <= a < 4 ==> #[trigger] area[a] == (quads@[a][2] - quads@[a][0]) * (
                    quads@[a][3] - quads@[a][1]),
                start + area[0] + area[1] + area[2] + area[3] <= g * g,
                assign@.len() == g * g,
                bounds.len() == k + 1,
                bounds[0] == start,
                bounds[k as int] == cells@.len(),
                forall|a: int| 0 <= a < k ==> #[trigger] bounds[a] < bounds[a + 1],
                forall|a: int| 0 <= a < k ==> bounds[a + 1] - bounds[a] <= #[trigger] area[a],
                forall|a: int, t: int|
                    0 <= a < k && bounds[a] <= t < bounds[a + 1] ==> inside(
                        #[trigger] cells@[t],
                        #[trigger] quads@[a],
                    ),
                forall|a: int|
                    0 <= a < k ==> pairwise_apart(cells@, #[trigger] bounds[a], bounds[a + 1]),
                start == old(cells)@.len(),
                cells@ == old(cells)@ + quadrant_leaves(*split, cell, di, mdi, msi, k as int),
                old_assign == old(assign)@,
                forall|p: int|
                    0 <= p < g * g ==> if exists|a: int|
                        0 <= a < k && covers(#[trigger] quads@[a], p, gi) {
                        start <= #[trigger] assign@[p] < cells@.len() && covers(
                            cells@[assign@[p] as int],
                            p,
                            gi,
                        )
                    } else {
                        assign@[p] == old_assign[p]
                    },
            decreases 4 - k,
        {
            let q = quads[k];
            let ghost before_cells = cells@;
            let ghost before_assign = assign@;
            proof {
                assert(q == quads@[k as int]);
                assert(start + area[0] + area[1] + area[2] + area[3] <= g * g);
                if k >= 1 {
                    assert(bounds[1] - bounds[0] <= area[0]);
                }
                if k >= 2 {
                    assert(bounds[2] - bounds[1] <= area[1]);
                }
                if k >= 3 {
                    assert(bounds[3] - bounds[2] <= area[2]);
                }
                assert(area[k as int] >= 1);
                assert(cells@.len() - start <= area[0] + area[1] + area[2] + area[3] - area[k as int]);
            }
            recurse(g, q, depth + 1, max_depth, min_side, split, cells, assign);
            proof {
                bounds = bounds.push(cells@.len() as int);
                assert(cells@ =~= old(cells)@ + quadrant_leaves(
                    *split,
                    cell,
                    di,
                    mdi,
                    msi,
                    k + 1,
                ));
                assert forall|a: int, t: int|
                    0 <= a < k + 1 && bounds[a] <= t < bounds[a + 1] implies inside(
                        #[trigger] cells@[t],
                        #[trigger] quads@[a],
                    ) by {
                    if a < k {
                        assert(cells@[t] == before_cells[t]);
                    }
                }
                assert forall|a: int| 0 <= a < k + 1 implies pairwise_apart(
                    cells@,
                    #[trigger] bounds[a],
                    bounds[a + 1],
                ) by {
                    if a < k {
                        assert forall|s: int, t: int|
                            bounds[a] <= s < bounds[a + 1] && bounds[a] <= t < bounds[a + 1] && s
                                != t implies apart(#[trigger] cells@[s], #[trigger] cells@[t]) by {
                            assert(cells@[s] == before_cells[s]);
                            assert(cells@[t] == before_cells[t]);
                            assert(pairwise_apart(before_cells, bounds[a], bounds[a + 1]));
                            assert(apart(before_cells[s], before_cells[t]));
                        }
                    }
                }
                assert forall|p: int| 0 <= p < g * g implies if exists|a: int|
                    0 <= a < k + 1 && covers(#[trigger] quads@[a], p, gi) {
                    start <= #[trigger] assign@[p] < cells@.len() && covers(
                        cells@[assign@[p] as int],
                        p,
                        gi,
                    )
                } else {
                    assign@[p] == old_assign[p]
                } by {
                    if covers(q, p, gi) {
                        assert(covers(quads@[k as int], p, gi));
                    } else {
                        assert(assign@[p] == before_assign[p]);
                        if exists|a: int| 0 <= a < k && covers(#[trigger] quads@[a], p, gi) {
                            assert(cells@[before_assign[p] as int]
                                == before_cells[before_assign[p] as int]);
                        } else {
                            assert forall|a: int| 0 <= a < k + 1 implies !covers(
                                #[trigger] quads@[a],
                                p,
                                gi,
                            ) by {
                                if a == k {
                                    assert(quads@[a] == q);
                                }
                            }
                        }
                    }
                }
            }
            k = k + 1;
        }
        proof {
            let end = cells@.len() as int;
            assert(leaf_cells(*split, cell, di, mdi, msi) == quadrant_leaves(
                *split,
                cell,
                di,
                mdi,
                msi,
                4,
            ));
            assert(end - start <= (y1 - y0) * (x1 - x0)) by {
                assert(bounds[1] - bounds[0] <= area[0]);
                assert(bounds[2] - bounds[1] <= area[1]);
                assert(bounds[3] - bounds[2] <= area[2]);
                assert(bounds[4] - bounds[3] <= area[3]);
            }
            assert(bounds[0] < bounds[1]);
            assert forall|t: int| start <= t < end implies inside(#[trigger] cells@[t], cell) by {
                let a: int = if t < bounds[1] {
                    0
                } else if t < bounds[2] {
                    1
                } else if t < bounds[3] {
                    2
                } else {
                    3
                };
                assert(inside(cells@[t], quads@[a]));
            }
            assert forall|s: int, t: int|
                start <= s < end && start <= t < end && s != t implies apart(
                    #[trigger] cells@[s],
                    #[trigger] cells@[t],
                ) by {
                let a: int = if s < bounds[1] {
                    0
                } else if s < bounds[2] {
                    1
                } else if s < bounds[3] {
                    2
                } else {
                    3
                };
                let b: int = if t < bounds[1] {
                    0
                } else if t < bounds[2] {
                    1
                } else if t < bounds[3] {
                    2
                } else {
                    3
                };

                assert(inside(cells@[s], quads@[a]));
                assert(inside(cells@[t], quads@[b]));
                if a == b {
                    assert(pairwise_apart(cells@, bounds[a], bounds[a + 1]));
                }
            }
            assert forall|p: int| 0 <= p < g * g implies if covers(cell, p, gi) {
                start <= #[trigger] assign@[p] < cells@.len() && covers(
                    cells@[assign@[p] as int],
                    p,
                    gi,
                )
            } else {
                assign@[p] == old(assign)@[p]
            } by {
                if covers(cell, p, gi) {
                    let r = p / gi;
                    let c = p % gi;
                    if r < my {
                        if c < mx {
                            assert(covers(quads@[0], p, gi));
                        } else {
                            assert(covers(quads@[1], p, gi));
                        }
                    } else {
                        if c < mx {
                            assert(covers(quads@[2], p, gi));
                        } else {
                            assert(covers(quads@[3], p, gi));
                        }
                    }
                } else {
                    assert forall|a: int| 0 <= a < 4 implies !covers(#[trigger] quads@[a], p, gi) by {}
                }
            }
        }
    } else {
        proof {
            assert(!subdivides(*split, cell, di, mdi, msi));
            assert((y1 - y0) * (x1 - x0) >= 1) by (nonlinear_arith)
                requires
                    y1 > y0,
                    x1 > x0,
            ;
        }
        let idx = cells.len() as u32;
        cells.push(cell);
        fill(assign, g, cell, idx);
    }
}

/// A chain of boxes that the build may walk down from `path[0]` to `path.last()` within
/// `budget` levels: each box is one of the four quadrants of the box before it, and every
/// box that is split has short side at least `2 * min_side` and a `true` decision. The
/// last box is one the build cannot split further: the budget is used up, its decision
/// is `false`, or its short side is below `2 * min_side`.
pub open spec fn split_chain<F: Fn([usize; 4]) -> bool>(
    split: F,
    path: Seq<[usize; 4]>,
    budget: int,
    min_side: int,
) -> bool {
    &&& path.len() >= 1
    &&& path.len() - 1 <= budget
    &&& forall|i: int|
        0 <= i < path.len() - 1 ==> {
            &&& quadrants(#[trigger] path[i]).contains(path[i + 1])
            &&& splits(split, path[i])
            &&& short_side(path[i]) >= 2 * min_side
        }
    &&& (path.len() - 1 == budget || !splits(split, path.last()) || short_side(path.last()) < 2
        * min_side)
}

/// `leaf` is reached from `from` by a chain of splits the build may take within `budget`
/// levels, and is not split further.
pub open spec fn reached_by_splits<F: Fn([usize; 4]) -> bool>(
    split: F,
    from: [usize; 4],
    leaf: [usize; 4],
    budget: int,
    min_side: int,
) -> bool {
    exists|path: Seq<[usize; 4]>|
        #[trigger] split_chain(split, path, budget, min_side) && path[0] == from && path.last()
            == leaf
}

/// Prepending a box that splits into the chain's first box keeps a split chain.
proof fn lemma_chain_cons<F: Fn([usize; 4]) -> bool>(
    split: F,
    c: [usize; 4],
    q: [usize; 4],
    leaf: [usize; 4],
    budget: int,
    min_side: int,
)
    requires
        quadrants(c).contains(q),
        splits(split, c),
        short_side(c) >= 2 * min_side,
        reached_by_splits(split, q, leaf, budget - 1, min_side),
    ensures
        reached_by_splits(split, c, leaf, budget, min_side),
{
    let path = choose|path: Seq<[usize; 4]>|
        #[trigger] split_chain(split, path, budget - 1, min_side) && path[0] == q && path.last()
            == leaf;
    let np = seq![c] + path;
    assert(np[0] == c);
    assert(np.last() == leaf);
    assert forall|i: int| 0 <= i < np.len() - 1 implies {
        &&& quadrants(#[trigger] np[i]).contains(np[i + 1])
        &&& splits(split, np[i])
        &&& short_side(np[i]) >= 2 * min_side
    } by {
        if i == 0 {
            assert(np[1] == q);
        } else {
            assert(np[i] == path[i - 1]);
            assert(np[i + 1] == path[i]);
            assert(quadrants(path[i - 1]).contains(path[i - 1 + 1]));
        }
    }
    assert(split_chain(split, np, budget, min_side));
}

/// Every leaf the build produces for `c` at `depth` is reached from `c` by a chain of
/// allowed splits and is not split further.
proof fn lemma_leaf_cells_reached<F: Fn([usize; 4]) -> bool>(
    split: F,
    c: [usize; 4],
    depth: int,
    max_depth: int,
    min_side: int,
)
    requires
        depth <= max_depth,
    ensures
        forall|t: int|
            0 <= t < leaf_cells(split, c, depth, max_depth, min_side).len() ==> reached_by_splits(
                split,
                c,
                #[trigger] leaf_cells(split, c, depth, max_depth, min_side)[t],
                max_depth - depth,
                min_side,
            ),
    decreases max_depth - depth, 5int,
{
    let leaves = leaf_cells(split, c, depth, max_depth, min_side);
    if subdivides(split, c, depth, max_depth, min_side) {
        lemma_quadrant_leaves_reached(split, c, depth, max_depth, min_side, 4);
        assert(leaves == quadrant_leaves(split, c, depth, max_depth, min_side, 4));
    } else {
        let path = seq![c];
        assert(leaves == seq![c]);
        assert(path[0] == c);
        assert(path.last() == c);
        assert(split_chain(split, path, max_depth - depth, min_side));
        assert(reached_by_splits(split, c, leaves[0], max_depth - depth, min_side));
    }
}

/// The leaves of the first `k` quadrants of a cell that the build splits are reached from
/// it by allowed splits.
proof fn lemma_quadrant_leaves_reached<F: Fn([usize; 4]) -> bool>(
    split: F,
    c: [usize; 4],
    depth: int,
    max_depth: int,
    min_side: int,
    k: int,
)
    requires
        subdivides(split, c, depth, max_depth, min_side),
        0 <= k <= 4,
    ensures
        forall|t: int|
            0 <= t < quadrant_leaves(split, c, depth, max_depth, min_side, k).len()
                ==> reached_by_splits(
                split,
                c,
                #[trigger] quadrant_leaves(split, c, depth, max_depth, min_side, k)[t],
                max_depth - depth,
                min_side,
            ),
    decreases max_depth - depth, k,
{
    if k > 0 {
        lemma_quadrant_leaves_reached(split, c, depth, max_depth, min_side, k - 1);
        let q = quadrants(c)[k - 1];
        lemma_leaf_cells_reached(split, q, depth + 1, max_depth, min_side);
        let prev = quadrant_leaves(split, c, depth, max_depth, min_side, k - 1);
        let tail = leaf_cells(split, q, depth + 1, max_depth, min_side);
        let all = quadrant_leaves(split, c, depth, max_depth, min_side, k);
        assert(all == prev + tail);
        assert(quadrants(c).contains(q));
        assert forall|t: int| 0 <= t < all.len() implies reached_by_splits(
            split,
            c,
            #[trigger] all[t],
            max_depth - depth,
            min_side,
        ) by {
            if t < prev.len() {
                assert(all[t] == prev[t]);
            } else {
                assert(all[t] == tail[t - prev.len()]);
                lemma_chain_cons(split, c, q, tail[t - prev.len()], max_depth - depth, min_side);
            }
        }
    }
}

/// A quadrant of a box whose short side is at least `2 * m` has short side at least `m`.
proof fn lemma_quadrant_short_side(c: [usize; 4], q: [usize; 4], m: int)
    requires
        short_side(c) >= 2 * m,
        m >= 1,
        quadrants(c).contains(q),
    ensures
        short_side(q) >= m,
{
    let my = ((c[0] + c[2]) / 2) as usize;
    let mx = ((c[1] + c[3]) / 2) as usize;
    assert(my - c[0] >= m && c[2] - my >= m);
    assert(mx - c[1] >= m && c[3] - mx >= m);
    let k = choose|k: int| 0 <= k < 4 && quadrants(c)[k] == q;
    assert(q == quadrants(c)[k]);
}

/// The build never splits a cell whose short side is below `2 * min_side`: once the
/// image is split at all, every leaf has short side at least `min_side`.
pub proof fn lemma_quadtree_leaves_min_side<F: Fn([usize; 4]) -> bool>(
    split: F,
    g: usize,
    max_depth: usize,
    min_side: usize,
    t: int,
)
    requires
        min_side >= 1,
        0 <= t < leaf_cells(split, [0usize, 0usize, g, g], 0, max_depth as int, min_side as int).len(),
        leaf_cells(split, [0usize, 0usize, g, g], 0, max_depth as int, min_side as int).len() > 1,
    ensures
        short_side(leaf_cells(split, [0usize, 0usize, g, g], 0, max_depth as int, min_side as int)[t])
            >= min_side,
{
    let root = [0usize, 0usize, g, g];
    let leaves = leaf_cells(split, root, 0, max_depth as int, min_side as int);
    // More than one leaf: the root was split, so every leaf lies in one of its quadrants.
    assert(subdivides(split, root, 0, max_depth as int, min_side as int));
    lemma_leaf_cells_reached(split, root, 0, max_depth as int, min_side as int);
    assert(reached_by_splits(split, root, leaves[t], max_depth as int, min_side as int));
    let path = choose|path: Seq<[usize; 4]>|
        #[trigger] split_chain(split, path, max_depth as int, min_side as int) && path[0] == root
            && path.last() == leaves[t];
    if path.len() == 1 {
        // A chain that stops at the root would need the root to be unsplittable.
        assert(path.last() == root);
    } else {
        let i = path.len() - 2;
        assert(quadrants(path[i]).contains(path[i + 1]));
        lemma_quadrant_short_side(path[i], path[i + 1], min_side as int);
    }
}

/// Build a quadtree over a `g x g` image. Starting from the whole image, a cell is split
/// into its four quadrants (top-left, top-right, bottom-left, bottom-right, each built in
/// turn) when `depth < max_depth`, its short side is at least `2 * min_side`, and
/// `split(cell)` holds; otherwise it becomes the next leaf.
///
/// The leaves are exactly `leaf_cells` of the whole image, and they partition it: every
/// pixel lies in exactly one leaf, whose index `assign` records. Each leaf is reached from
/// the whole image by splits of cells whose decision is `true` and whose short side is at
/// least `2 * min_side`, within `max_depth` levels, and is itself not split further; so
/// once the image is split, no leaf has a short side below `min_side`.
pub fn quadtree_build_by<F: Fn([usize; 4]) -> bool>(
    g: usize,
    max_depth: usize,
    min_side: usize,
    split: &F,
) -> (qt: Quadtree)
    requires
        g >= 1,
        min_side >= 1,
        g * g <= u32::MAX,
        forall|c: [usize; 4]| #[trigger] split.requires((c,)),
        deterministic(*split),
    ensures
        qt.cells@ == leaf_cells(*split, [0usize, 0usize, g, g], 0, max_depth as int, min_side as int),
        qt.assign@.len() == g * g,
        1 <= qt.cells@.len() <= g * g,
        forall|t: int|
            0 <= t < qt.cells@.len() ==> inside(#[trigger] qt.cells@[t], [0usize, 0usize, g, g]),
        pairwise_apart(qt.cells@, 0, qt.cells@.len() as int),
        forall|p: int| 0 <= p < g * g ==> (#[trigger] qt.assign@[p] as int) < qt.cells@.len(),
        forall|p: int, t: int|
            0 <= p < g * g && 0 <= t < qt.cells@.len() ==> (covers(
                #[trigger] qt.cells@[t],
                p,
                g as int,
            ) <==> #[trigger] qt.assign@[p] as int == t),
        forall|t: int|
            0 <= t < qt.cells@.len() ==> reached_by_splits(
                *split,
                [0usize, 0usize, g, g],
                #[trigger] qt.cells@[t],
                max_depth as int,
                min_side as int,
            ),
        qt.cells@.len() > 1 ==> forall|t: int|
            0 <= t < qt.cells@.len() ==> short_side(#[trigger] qt.cells@[t]) >= min_side,
{
    let mut cells: Vec<[usize; 4]> = Vec::new();
    let mut assign: Vec<u32> = Vec::new();
    let n = g * g;
    for i in 0..n
        invariant
            assign@.len() == i,
    {
        assign.push(0);
    }
    let root = [0, 0, g, g];
    recurse(g, root, 0, max_depth, min_side, split, &mut cells, &mut assign);
    proof {
        let gi = g as int;
        assert(cells@ =~= leaf_cells(*split, root, 0, max_depth as int, min_side as int));
        lemma_leaf_cells_reached(*split, root, 0, max_depth as int, min_side as int);
        if cells@.len() > 1 {
            assert forall|t: int| 0 <= t < cells@.len() implies short_side(#[trigger] cells@[t])
                >= min_side by {
                lemma_quadtree_leaves_min_side(*split, g, max_depth, min_side, t);
            }
        }
        assert forall|p: int| 0 <= p < g * g implies covers(root, p, gi) by {
            assert(0 <= p / gi < gi && 0 <= p % gi < gi) by (nonlinear_arith)
                requires
                    0 <= p < gi * gi,
                    gi >= 1,
            ;
        }
        assert forall|p: int, t: int|
            0 <= p < g * g && 0 <= t < cells@.len() implies (covers(
                #[trigger] cells@[t],
                p,
                gi,
            ) <==> #[trigger] assign@[p] as int == t) by {
            assert(covers(root, p, gi));
            let s = assign@[p] as int;
            assert(covers(cells@[s], p, gi));
            if t != s {
                assert(apart(cells@[s], cells@[t]));
            }
        }
    }
    Quadtree { cells, assign }
}

} // verus!
