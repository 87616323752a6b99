use vstd::prelude::*;
use crate::pixel::Pixel;
use crate::canvas::{canvas_coord, coord_fits, deterministic, selected, tile_data, lookup, TileView};

verus! {

/// Canvas x of pixel `j` of a tile at column `tx`, pixels stored rows first.
pub open spec fn pixel_x(tx: i32, ts: nat, j: int) -> int {
    canvas_coord(tx, ts, j % (ts as int))
}

/// Canvas y of pixel `j` of a tile at row `ty`, pixels stored rows first.
pub open spec fn pixel_y(ty: i32, ts: nat, j: int) -> int {
    canvas_coord(ty, ts, j / (ts as int))
}

/// The pixel at (x, y) passes the selection: always without one.
pub open spec fn passes<F: Fn(i32, i32) -> bool>(sel: Option<&F>, x: int, y: int) -> bool {
    match sel {
        Some(f) => selected(*f, x, y),
        None => true,
    }
}

/// Pixel `j` of the tile buffer `d` at (tx, ty) counts as content: it is
/// not fully transparent and passes the selection.
pub open spec fn content_at<F: Fn(i32, i32) -> bool>(
    sel: Option<&F>,
    ts: nat,
    tx: i32,
    ty: i32,
    d: Seq<Pixel>,
    j: int,
) -> bool {
    0 <= j < d.len() && d[j].a > 0 && passes(sel, pixel_x(tx, ts, j), pixel_y(ty, ts, j))
}

/// Pixel `j` of the tile `t` at (tx, ty) is content: the tile has a
/// buffer and the pixel counts.
pub open spec fn tile_content<F: Fn(i32, i32) -> bool>(
    sel: Option<&F>,
    ts: nat,
    tx: i32,
    ty: i32,
    t: Option<TileView>,
    j: int,
) -> bool {
    match tile_data(t) {
        Some(d) => content_at(sel, ts, tx, ty, d, j),
        None => false,
    }
}

/// The inclusive box (min x, min y, max x, max y) holds the point (x, y).
pub open spec fn encloses(b: (i32, i32, i32, i32), x: int, y: int) -> bool {
    b.0 <= x <= b.2 && b.1 <= y <= b.3
}

/// Edge `e` of a box: min x, min y, max x, max y for `e` = 0, 1, 2, 3.
pub open spec fn edge(b: (i32, i32, i32, i32), e: int) -> int {
    if e == 0 {
        b.0 as int
    } else if e == 1 {
        b.1 as int
    } else if e == 2 {
        b.2 as int
    } else {
        b.3 as int
    }
}

/// The coordinate of (x, y) that edge `e` of a box is compared with.
pub open spec fn along(x: int, y: int, e: int) -> int {
    if e == 0 || e == 2 {
        x
    } else {
        y
    }
}

/// `c` holds the box `b`, if there is one.
pub open spec fn widens(b: Option<(i32, i32, i32, i32)>, c: Option<(i32, i32, i32, i32)>) -> bool {
    b matches Some(p) ==> (c matches Some(q) && q.0 <= p.0 && q.1 <= p.1 && q.2 >= p.2 && q.3 >= p.3)
}

/// The smallest box holding `b` and the point (x, y).
pub open spec fn grown(b: Option<(i32, i32, i32, i32)>, x: i32, y: i32) -> (i32, i32, i32, i32) {
    match b {
        None => (x, y, x, y),
        Some(p) => (
            if x < p.0 { x } else { p.0 },
            if y < p.1 { y } else { p.1 },
            if x > p.2 { x } else { p.2 },
            if y > p.3 { y } else { p.3 },
        ),
    }
}

/// Edge `e` of `c` is that of the box `acc`, if there is one.
pub open spec fn from_acc(acc: Option<(i32, i32, i32, i32)>, c: (i32, i32, i32, i32), e: int) -> bool {
    match acc {
        Some(b) => edge(b, e) == edge(c, e),
        None => false,
    }
}

/// Each edge of `out` is an edge of `acc` or lies on one of the first
/// `lim` content pixels of the tile buffer `d` at (tx, ty).
pub open spec fn edges_attained<F: Fn(i32, i32) -> bool>(
    acc: Option<(i32, i32, i32, i32)>,
    out: Option<(i32, i32, i32, i32)>,
    sel: Option<&F>,
    ts: nat,
    tx: i32,
    ty: i32,
    d: Seq<Pixel>,
    lim: int,
) -> bool {
    match out {
        Some(c) => forall|e: int|
            #![trigger from_acc(acc, c, e)]
            0 <= e < 4 ==> from_acc(acc, c, e) || exists|k: int|
                0 <= k < lim && #[trigger] content_at(sel, ts, tx, ty, d, k) && along(
                    pixel_x(tx, ts, k),
                    pixel_y(ty, ts, k),
                    e,
                ) == edge(c, e),
        None => true,
    }
}

/// Edge `e` of the box `c` lies on a content pixel of the tiles `m`.
pub open spec fn map_edge_met<F: Fn(i32, i32) -> bool>(
    sel: Option<&F>,
    ts: nat,
    m: Map<(i32, i32), TileView>,
    c: (i32, i32, i32, i32),
    e: int,
) -> bool {
    exists|tx: i32, ty: i32, j: int|
        #[trigger] tile_content(sel, ts, tx, ty, lookup(m, (tx, ty)), j) && along(
            pixel_x(tx, ts, j),
            pixel_y(ty, ts, j),
            e,
        ) == edge(c, e)
}

/// Extends the box `acc` by every content pixel of the tile buffer `d` at
/// (tx, ty): the result holds `acc` and each such pixel, and each of its
/// edges is an edge of `acc` or lies on one of those pixels.
pub fn tile_bounds<F: Fn(i32, i32) -> bool>(
    d: &Vec<Pixel>,
    ts: usize,
    tx: i32,
    ty: i32,
    sel: Option<&F>,
    acc: Option<(i32, i32, i32, i32)>,
) -> (r: Option<(i32, i32, i32, i32)>)
    requires
        ts > 0,
        ts <= i32::MAX,
        d@.len() == ts * ts,
        coord_fits(tx, ts as nat),
        coord_fits(ty, ts as nat),
        sel matches Some(f) ==> forall|x: i32, y: i32| call_requires(*f, (x, y)),
        sel matches Some(f) ==> deterministic(*f),
    ensures
        forall|j: int|
            #[trigger] content_at(sel, ts as nat, tx, ty, d@, j) ==> (r matches Some(c) && encloses(
                c,
                pixel_x(tx, ts as nat, j),
                pixel_y(ty, ts as nat, j),
            )),
        widens(acc, r),
        r is None ==> acc is None,
        edges_attained(acc, r, sel, ts as nat, tx, ty, d@, d@.len() as int),
{
    let n = d.len();
    let ghost tsn = ts as nat;
    let mut out = acc;
    let mut j: usize = 0;
    while j < n
        invariant
            n == d@.len(),
            n == ts * ts,
            j <= n,
            ts > 0,
            ts <= i32::MAX,
            tsn == ts,
            coord_fits(tx, tsn),
            coord_fits(ty, tsn),
            sel matches Some(f) ==> forall|x: i32, y: i32| call_requires(*f, (x, y)),
            sel matches Some(f) ==> deterministic(*f),
            forall|k: int|
                0 <= k < j && #[trigger] content_at(sel, tsn, tx, ty, d@, k) ==> (out matches Some(c) && encloses(
                    c,
                    pixel_x(tx, tsn, k),
                    pixel_y(ty, tsn, k),
                )),
            widens(acc, out),
            out is None ==> acc is None,
            edges_attained(acc, out, sel, tsn, tx, ty, d@, j as int),
        decreases n - j,
    {
        let ghost start = out;
        let col = j % ts;
        let row = j / ts;
        proof {
            assert(row < ts) by (nonlinear_arith)
                requires
                    row == j / ts,
                    j < ts * ts,
                    ts > 0,
            ;
        }
        if d[j].a > 0 {
            let gx = tx * (ts as i32) + (col as i32);
            let gy = ty * (ts as i32) + (row as i32);
            let keep = match sel {
                Some(f) => f(gx, gy),
                None => true,
            };
            proof {
                assert(gx == pixel_x(tx, tsn, j as int));
                assert(gy == pixel_y(ty, tsn, j as int));
                assert(keep == passes(sel, gx as int, gy as int));
            }
            if keep {
                let ghost before = out;
                let next = match out {
                    None => (gx, gy, gx, gy),
                    Some(b) => (
                        if gx < b.0 { gx } else { b.0 },
                        if gy < b.1 { gy } else { b.1 },
                        if gx > b.2 { gx } else { b.2 },
                        if gy > b.3 { gy } else { b.3 },
                    ),
                };
                out = Some(next);
                proof {
                    assert(content_at(sel, tsn, tx, ty, d@, j as int));
                    assert forall|k: int|
                        0 <= k < j + 1 && #[trigger] content_at(sel, tsn, tx, ty, d@, k) implies (out matches Some(c) && encloses(
                        c,
                        pixel_x(tx, tsn, k),
                        pixel_y(ty, tsn, k),
                    )) by {}
                    assert forall|e: int| 0 <= e < 4 implies #[trigger] from_acc(acc, next, e) || exists|k: int|
                        0 <= k < j + 1 && #[trigger] content_at(sel, tsn, tx, ty, d@, k) && along(
                            pixel_x(tx, tsn, k),
                            pixel_y(ty, tsn, k),
                            e,
                        ) == edge(next, e) by {
                        assert(edge(next, e) >= i32::MIN);
                        if along(gx as int, gy as int, e) == edge(next, e) {
                            assert(content_at(sel, tsn, tx, ty, d@, j as int));
                        } else {
                            let b = before->0;
                            assert(edge(b, e) == edge(next, e));
                            assert(edge(b, e) >= i32::MIN);
                            if !from_acc(acc, b, e) {
                                let w = choose|k: int|
                                    0 <= k < j && #[trigger] content_at(sel, tsn, tx, ty, d@, k) && along(
                                        pixel_x(tx, tsn, k),
                                        pixel_y(ty, tsn, k),
                                        e,
                                    ) == edge(b, e);
                                assert(content_at(sel, tsn, tx, ty, d@, w));
                            }
                        }
                    }
                }
            }
        }
        proof {
            if out == start {
                if let Some(c) = out {
                    assert forall|e: int| 0 <= e < 4 implies #[trigger] from_acc(acc, c, e) || exists|k: int|
                        0 <= k < j + 1 && #[trigger] content_at(sel, tsn, tx, ty, d@, k) && along(
                            pixel_x(tx, tsn, k),
                            pixel_y(ty, tsn, k),
                            e,
                        ) == edge(c, e) by {
                        assert(edge(c, e) >= i32::MIN);
                        assert(from_acc(acc, c, e) || exists|k: int|
                            0 <= k < j && #[trigger] content_at(sel, tsn, tx, ty, d@, k) && along(
                                pixel_x(tx, tsn, k),
                                pixel_y(ty, tsn, k),
                                e,
                            ) == edge(c, e));
                        if !from_acc(acc, c, e) {
                            let w = choose|k: int|
                                0 <= k < j && #[trigger] content_at(sel, tsn, tx, ty, d@, k) && along(
                                    pixel_x(tx, tsn, k),
                                    pixel_y(ty, tsn, k),
                                    e,
                                ) == edge(c, e);
                            assert(content_at(sel, tsn, tx, ty, d@, w));
                        }
                    }
                }
            }
        }
        j = j + 1;
    }
    proof {
        if let Some(c) = out {
            assert forall|e: int| 0 <= e < 4 implies #[trigger] from_acc(acc, c, e)
                || exists|k: int|
                #[trigger] content_at(sel, tsn, tx, ty, d@, k) && along(
                    pixel_x(tx, tsn, k),
                    pixel_y(ty, tsn, k),
                    e,
                ) == edge(c, e) by {
                assert(j == n);
                assert(edge(c, e) >= i32::MIN);
                assert(from_acc(acc, c, e) || exists|k: int|
                    0 <= k < j && #[trigger] content_at(sel, tsn, tx, ty, d@, k) && along(
                        pixel_x(tx, tsn, k),
                        pixel_y(ty, tsn, k),
                        e,
                    ) == edge(c, e));
                if !from_acc(acc, c, e) {
                    let w = choose|k: int|
                        0 <= k < n && #[trigger] content_at(sel, tsn, tx, ty, d@, k) && along(
                            pixel_x(tx, tsn, k),
                            pixel_y(ty, tsn, k),
                            e,
                        ) == edge(c, e);
                    assert(content_at(sel, tsn, tx, ty, d@, w));
                }
            }
        }
        assert forall|k: int| #[trigger] content_at(sel, tsn, tx, ty, d@, k) implies (out matches Some(c)
            && encloses(c, pixel_x(tx, tsn, k), pixel_y(ty, tsn, k))) by {
            assert(0 <= k < n);
        }
    }
    out
}

} // verus!
