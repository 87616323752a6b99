use vstd::prelude::*;
use crate::pixel::{Pixel, transparent};
use crate::canvas::{Canvas, CanvasView, filled, tile_data};
use crate::history::{TileSnapshot, SnapshotView, UndoAction, reversible, restorable, hits, snapshot_key};

verus! {

/// Rectangular part of a tile touched by a dab.
#[derive(Clone, Copy, Debug, PartialEq, Eq, Structural)]
pub struct TileRegion {
    pub tx: usize,
    pub ty: usize,
    pub x0: usize,
    pub y0: usize,
    pub width: usize,
    pub height: usize,
}

/// A pixel rectangle clipped to the canvas, with the range of tiles it
/// covers (all bounds inclusive).
#[derive(Clone, Copy, Debug, PartialEq, Eq, Structural)]
pub struct TileSpan {
    pub start_x: usize,
    pub end_x: usize,
    pub start_y: usize,
    pub end_y: usize,
    pub min_tx: usize,
    pub max_tx: usize,
    pub min_ty: usize,
    pub max_ty: usize,
}

pub open spec fn max_int(a: int, b: int) -> int {
    if a >= b { a } else { b }
}

pub open spec fn min_int(a: int, b: int) -> int {
    if a <= b { a } else { b }
}

/// The rectangle [min_x, max_x] x [min_y, max_y] misses the canvas of the
/// given size, or becomes empty once clipped to it.
pub open spec fn misses_canvas(min_x: i32, max_x: i32, min_y: i32, max_y: i32, w: i32, h: i32) -> bool {
    ||| max_x < 0
    ||| max_y < 0
    ||| min_x >= w
    ||| min_y >= h
    ||| max_int(min_x as int, 0) > min_int(max_x as int, w - 1)
    ||| max_int(min_y as int, 0) > min_int(max_y as int, h - 1)
}

/// Clip the pixel rectangle [min_x, max_x] x [min_y, max_y] to a canvas of
/// `canvas_w` by `canvas_h` pixels and find the tiles it covers; `None`
/// when nothing of it lies on the canvas.
pub fn clip_to_canvas(
    min_x: i32,
    max_x: i32,
    min_y: i32,
    max_y: i32,
    canvas_w: i32,
    canvas_h: i32,
    tile_size: usize,
) -> (r: Option<TileSpan>)
    requires
        tile_size > 0,
        canvas_w >= 1,
        canvas_h >= 1,
    ensures
        r is None <==> misses_canvas(min_x, max_x, min_y, max_y, canvas_w, canvas_h),
        r matches Some(s) ==> {
            &&& s.start_x == max_int(min_x as int, 0)
            &&& s.end_x == min_int(max_x as int, canvas_w - 1)
            &&& s.start_y == max_int(min_y as int, 0)
            &&& s.end_y == min_int(max_y as int, canvas_h - 1)
            &&& s.start_x <= s.end_x
            &&& s.start_y <= s.end_y
            &&& s.end_x <= i32::MAX
            &&& s.end_y <= i32::MAX
            &&& s.min_tx == s.start_x / tile_size
            &&& s.max_tx == s.end_x / tile_size
            &&& s.min_ty == s.start_y / tile_size
            &&& s.max_ty == s.end_y / tile_size
        },
{
    if max_x < 0 || max_y < 0 || min_x >= canvas_w || min_y >= canvas_h {
        return None;
    }
    let start_x: usize = if min_x > 0 { min_x as usize } else { 0 };
    let start_y: usize = if min_y > 0 { min_y as usize } else { 0 };
    let end_x: usize = if max_x < canvas_w - 1 { max_x as usize } else { (canvas_w - 1) as usize };
    let end_y: usize = if max_y < canvas_h - 1 { max_y as usize } else { (canvas_h - 1) as usize };
    proof {
        assert(start_x == max_int(min_x as int, 0));
        assert(start_y == max_int(min_y as int, 0));
        assert(end_x == min_int(max_x as int, canvas_w - 1));
        assert(end_y == min_int(max_y as int, canvas_h - 1));
    }
    if start_x > end_x || start_y > end_y {
        return None;
    }
    Some(
        TileSpan {
            start_x,
            end_x,
            start_y,
            end_y,
            min_tx: start_x / tile_size,
            max_tx: end_x / tile_size,
            min_ty: start_y / tile_size,
            max_ty: end_y / tile_size,
        },
    )
}

/// The part of tile (tx, ty) inside the span, relative to the tile.
pub open spec fn region_for(s: TileSpan, ts: nat, tx: nat, ty: nat) -> TileRegion {
    let ox = max_int(s.start_x as int, (tx * ts) as int);
    let ex = min_int(s.end_x as int, tx * ts + ts - 1);
    let oy = max_int(s.start_y as int, (ty * ts) as int);
    let ey = min_int(s.end_y as int, ty * ts + ts - 1);
    TileRegion {
        tx: tx as usize,
        ty: ty as usize,
        x0: (ox - tx * ts) as usize,
        y0: (oy - ty * ts) as usize,
        width: (ex - ox + 1) as usize,
        height: (ey - oy + 1) as usize,
    }
}

/// The span is a clipped rectangle of `ts`-pixel tiles.
pub open spec fn span_ok(s: TileSpan, ts: nat) -> bool {
    &&& ts > 0
    &&& ts <= i32::MAX
    &&& s.start_x <= s.end_x <= i32::MAX
    &&& s.start_y <= s.end_y <= i32::MAX
    &&& s.min_tx == (s.start_x as int) / (ts as int)
    &&& s.max_tx == (s.end_x as int) / (ts as int)
    &&& s.min_ty == (s.start_y as int) / (ts as int)
    &&& s.max_ty == (s.end_y as int) / (ts as int)
}

proof fn lemma_tile_bounds(p: int, ts: int)
    requires
        ts > 0,
        p >= 0,
    ensures
        (p / ts) * ts <= p,
        p < (p / ts) * ts + ts,
{
    vstd::arithmetic::div_mod::lemma_fundamental_div_mod(p, ts);
    vstd::arithmetic::mul::lemma_mul_is_commutative(p / ts, ts);
}

/// The region of tile (tx, ty) holds the canvas pixel (x, y).
pub open spec fn region_holds(r: TileRegion, ts: nat, x: int, y: int) -> bool {
    &&& r.tx * ts + r.x0 <= x < r.tx * ts + r.x0 + r.width
    &&& r.ty * ts + r.y0 <= y < r.ty * ts + r.y0 + r.height
}

/// The regions of a span cover it: each pixel of the clipped rectangle lies
/// in the region of the tile that contains it, which is one of the span's
/// tiles.
pub proof fn lemma_regions_cover(s: TileSpan, ts: nat, x: int, y: int)
    requires
        span_ok(s, ts),
        s.start_x <= x <= s.end_x,
        s.start_y <= y <= s.end_y,
    ensures
        s.min_tx <= x / (ts as int) <= s.max_tx,
        s.min_ty <= y / (ts as int) <= s.max_ty,
        region_holds(region_for(s, ts, (x / (ts as int)) as nat, (y / (ts as int)) as nat), ts, x, y),
{
    let t = ts as int;
    lemma_tile_bounds(x, t);
    lemma_tile_bounds(y, t);
    vstd::arithmetic::div_mod::lemma_div_is_ordered(s.start_x as int, x, t);
    vstd::arithmetic::div_mod::lemma_div_is_ordered(x, s.end_x as int, t);
    vstd::arithmetic::div_mod::lemma_div_is_ordered(s.start_y as int, y, t);
    vstd::arithmetic::div_mod::lemma_div_is_ordered(y, s.end_y as int, t);
}

/// The regions of every tile of a span, rows of tiles first: the region of
/// tile (min_tx + c, min_ty + r) is at position r * columns + c.
pub fn span_regions(s: TileSpan, tile_size: usize) -> (out: Vec<TileRegion>)
    requires
        span_ok(s, tile_size as nat),
    ensures
        out@.len() == (s.max_ty - s.min_ty + 1) * (s.max_tx - s.min_tx + 1),
        forall|r: int, c: int|
            0 <= r <= s.max_ty - s.min_ty && 0 <= c <= s.max_tx - s.min_tx ==> #[trigger] out@[r * (s.max_tx
                - s.min_tx + 1) + c] == region_for(s, tile_size as nat, (s.min_tx + c) as nat, (s.min_ty + r) as nat),
{
    let ts = tile_size;
    proof {
        lemma_tile_bounds(s.start_x as int, ts as int);
        lemma_tile_bounds(s.end_x as int, ts as int);
        lemma_tile_bounds(s.start_y as int, ts as int);
        lemma_tile_bounds(s.end_y as int, ts as int);
        assert(s.min_tx <= s.max_tx) by {
            vstd::arithmetic::div_mod::lemma_div_is_ordered(s.start_x as int, s.end_x as int, ts as int);
        }
        assert(s.min_ty <= s.max_ty) by {
            vstd::arithmetic::div_mod::lemma_div_is_ordered(s.start_y as int, s.end_y as int, ts as int);
        }
    }
    let cols = s.max_tx - s.min_tx + 1;
    let mut out: Vec<TileRegion> = Vec::new();
    let mut ty = s.min_ty;
    while ty <= s.max_ty
        invariant
            span_ok(s, ts as nat),
            s.min_tx <= s.max_tx,
            s.min_ty <= s.max_ty,
            cols == s.max_tx - s.min_tx + 1,
            s.min_ty <= ty <= s.max_ty + 1,
            s.max_ty * ts <= s.end_y,
            s.max_tx * ts <= s.end_x,
            s.start_x < s.min_tx * ts + ts,
            s.start_y < s.min_ty * ts + ts,
            out@.len() == (ty - s.min_ty) * cols,
            forall|r: int, c: int|
                0 <= r < ty - s.min_ty && 0 <= c < cols ==> #[trigger] out@[r * cols + c] == region_for(
                    s,
                    ts as nat,
                    (s.min_tx + c) as nat,
                    (s.min_ty + r) as nat,
                ),
        decreases s.max_ty + 1 - ty,
    {
        let ghost row_start = out@;
        let mut tx = s.min_tx;
        while tx <= s.max_tx
            invariant
                span_ok(s, ts as nat),
                s.min_tx <= s.max_tx,
                cols == s.max_tx - s.min_tx + 1,
                s.min_ty <= ty <= s.max_ty,
                s.min_tx <= tx <= s.max_tx + 1,
                s.max_ty * ts <= s.end_y,
                s.max_tx * ts <= s.end_x,
                s.start_x < s.min_tx * ts + ts,
                s.start_y < s.min_ty * ts + ts,
                row_start.len() == (ty - s.min_ty) * cols,
                out@.len() == row_start.len() + (tx - s.min_tx),
                out@.subrange(0, row_start.len() as int) == row_start,
                forall|c: int|
                    0 <= c < tx - s.min_tx ==> #[trigger] out@[row_start.len() + c] == region_for(
                        s,
                        ts as nat,
                        (s.min_tx + c) as nat,
                        ty as nat,
                    ),
            decreases s.max_tx + 1 - tx,
        {
            proof {
                assert(tx * ts <= s.max_tx * ts) by (nonlinear_arith)
                    requires
                        tx <= s.max_tx,
                ;
                assert(ty * ts <= s.max_ty * ts) by (nonlinear_arith)
                    requires
                        ty <= s.max_ty,
                ;
            }
            let tile_x0 = tx * ts;
            let tile_y0 = ty * ts;
            let ox = if s.start_x > tile_x0 { s.start_x } else { tile_x0 };
            let ex = if s.end_x < tile_x0 + ts - 1 { s.end_x } else { tile_x0 + ts - 1 };
            let oy = if s.start_y > tile_y0 { s.start_y } else { tile_y0 };
            let ey = if s.end_y < tile_y0 + ts - 1 { s.end_y } else { tile_y0 + ts - 1 };
            proof {
                assert(tx >= s.min_tx);
                assert(s.min_tx * ts <= tx * ts) by (nonlinear_arith)
                    requires
                        s.min_tx <= tx,
                ;
                assert(s.min_ty * ts <= ty * ts) by (nonlinear_arith)
                    requires
                        s.min_ty <= ty,
                ;
                assert(ox <= ex);
                assert(oy <= ey);
            }
            out.push(
                TileRegion {
                    tx,
                    ty,
                    x0: ox - tile_x0,
                    y0: oy - tile_y0,
                    width: ex - ox + 1,
                    height: ey - oy + 1,
                },
            );
            proof {
                assert(out@.subrange(0, row_start.len() as int) =~= row_start);
                assert forall|c: int| 0 <= c < tx + 1 - s.min_tx implies #[trigger] out@[row_start.len() + c]
                    == region_for(s, ts as nat, (s.min_tx + c) as nat, ty as nat) by {
                    if c < tx - s.min_tx {
                    } else {
                        assert(c == tx - s.min_tx);
                    }
                }
            }
            tx = tx + 1;
        }
        proof {
            assert(out@.len() == (ty + 1 - s.min_ty) * cols) by (nonlinear_arith)
                requires
                    out@.len() == (ty - s.min_ty) * cols + cols,
            ;
            assert forall|r: int, c: int| 0 <= r < ty + 1 - s.min_ty && 0 <= c < cols implies #[trigger] out@[r
                * cols + c] == region_for(s, ts as nat, (s.min_tx + c) as nat, (s.min_ty + r) as nat) by {
                if r < ty - s.min_ty {
                    assert(r * cols + c < (ty - s.min_ty) * cols) by (nonlinear_arith)
                        requires
                            r < ty - s.min_ty,
                            0 <= c < cols,
                    ;
                    assert(out@[r * cols + c] == out@.subrange(0, row_start.len() as int)[r * cols + c]);
                    assert(row_start[r * cols + c] == region_for(s, ts as nat, (s.min_tx + c) as nat, (s.min_ty + r) as nat));
                } else {
                    assert(r == ty - s.min_ty);
                    assert(r * cols + c == row_start.len() + c);
                }
            }
        }
        ty = ty + 1;
    }
    out
}

/// Tiles of `regs`, in order and without repeats, that are not yet in
/// `done`.
pub open spec fn fresh_keys(done: Seq<(usize, usize)>, regs: Seq<TileRegion>) -> Seq<(usize, usize)>
    decreases regs.len(),
{
    if regs.len() == 0 {
        Seq::empty()
    } else {
        let prev = fresh_keys(done, regs.drop_last());
        let k = (regs.last().tx, regs.last().ty);
        if done.contains(k) || prev.contains(k) {
            prev
        } else {
            prev.push(k)
        }
    }
}

/// The canvas after giving each listed tile of `layer` a buffer.
pub open spec fn ensure_all(c: CanvasView, layer: int, keys: Seq<(usize, usize)>) -> CanvasView
    decreases keys.len(),
{
    if keys.len() == 0 {
        c
    } else {
        let k = keys.last();
        ensure_all(c, layer, keys.drop_last()).ensure_tile(layer, k.0 as i32, k.1 as i32)
    }
}

/// Snapshot of a whole tile of `layer` holding the canvas's pixels there.
pub open spec fn full_snapshot(c: CanvasView, layer: nat, k: (usize, usize)) -> SnapshotView {
    SnapshotView {
        tx: k.0 as i32,
        ty: k.1 as i32,
        layer_idx: layer,
        x0: 0,
        y0: 0,
        width: c.tile_size,
        height: c.tile_size,
        data: c.pixels(layer as int, k.0 as i32, k.1 as i32),
    }
}

/// The tiles of `keys` in order, each at its first occurrence only.
pub open spec fn first_occurrences(keys: Seq<(i32, i32)>) -> Seq<(i32, i32)>
    decreases keys.len(),
{
    if keys.len() == 0 {
        Seq::empty()
    } else {
        let prev = first_occurrences(keys.drop_last());
        if prev.contains(keys.last()) {
            prev
        } else {
            prev.push(keys.last())
        }
    }
}

/// Snapshot of a whole tile of `layer` holding its buffer, or transparent
/// pixels where it has none.
pub open spec fn buffer_snapshot(c: CanvasView, layer: nat, k: (i32, i32)) -> SnapshotView {
    SnapshotView {
        tx: k.0,
        ty: k.1,
        layer_idx: layer,
        x0: 0,
        y0: 0,
        width: c.tile_size,
        height: c.tile_size,
        data: match tile_data(c.tile(layer as int, k.0, k.1)) {
            Some(d) => d,
            None => filled(c.tile_len(), transparent()),
        },
    }
}

/// No tile is listed twice among first occurrences.
pub proof fn lemma_first_occurrences_distinct(keys: Seq<(i32, i32)>)
    ensures
        forall|i: int, j: int|
            0 <= i < j < first_occurrences(keys).len() ==> first_occurrences(keys)[i] != first_occurrences(keys)[j],
        forall|k: (i32, i32)| first_occurrences(keys).contains(k) <==> keys.contains(k),
    decreases keys.len(),
{
    if keys.len() > 0 {
        let front = keys.drop_last();
        lemma_first_occurrences_distinct(front);
        let prev = first_occurrences(front);
        let f = first_occurrences(keys);
        assert forall|i: int, j: int| 0 <= i < j < f.len() implies f[i] != f[j] by {
            if j == prev.len() {
                assert(f[i] == prev[i]);
            }
        }
        assert forall|k: (i32, i32)| f.contains(k) <==> keys.contains(k) by {
            if keys.contains(k) {
                let i = choose|i: int| 0 <= i < keys.len() && keys[i] == k;
                if i < front.len() {
                    assert(front[i] == k);
                    assert(front.contains(k));
                    assert(prev.contains(k));
                    let j = choose|j: int| 0 <= j < prev.len() && prev[j] == k;
                    assert(f[j] == prev[j]);
                } else {
                    assert(keys.last() == k);
                    if !prev.contains(k) {
                        assert(f[prev.len() as int] == k);
                    }
                }
                assert(f.contains(k));
            }
            if f.contains(k) {
                let i = choose|i: int| 0 <= i < f.len() && f[i] == k;
                if i < prev.len() {
                    assert(f[i] == prev[i]);
                    assert(prev.contains(k));
                    assert(front.contains(k));
                    let m = choose|m: int| 0 <= m < front.len() && front[m] == k;
                    assert(keys[m] == front[m]);
                    assert(keys.contains(k));
                } else {
                    assert(keys[keys.len() - 1] == k);
                    assert(keys.contains(k));
                }
            }
        }
    }
}

/// Whether `k` is in the list.
fn lists_key(v: &Vec<(i32, i32)>, k: (i32, i32)) -> (r: bool)
    ensures
        r == v@.contains(k),
{
    let mut i: usize = 0;
    while i < v.len()
        invariant
            i <= v@.len(),
            forall|j: int| 0 <= j < i ==> v@[j] != k,
        decreases v@.len() - i,
    {
        if v[i].0 == k.0 && v[i].1 == k.1 {
            assert(v@[i as int] == k);
            return true;
        }
        i = i + 1;
    }
    false
}

/// Record, before a layer is transformed, every tile it touches: for each
/// tile of `keys`, at its first occurrence, a whole-tile snapshot of layer
/// `layer` holding the tile's buffer (transparent where it has none) is
/// appended to the action.
pub fn snapshot_layer_tiles<S, T>(
    canvas: &Canvas,
    layer: usize,
    keys: &Vec<(i32, i32)>,
    action: &mut UndoAction<S, T>,
)
    requires
        canvas.wf(),
    ensures
        final(action)@.selection == old(action)@.selection,
        final(action)@.transform == old(action)@.transform,
        final(action)@.tiles == old(action)@.tiles + first_occurrences(keys@).map_values(
            |k: (i32, i32)| buffer_snapshot(canvas@, layer as nat, k),
        ),
{
    proof {
        canvas.lemma_view_wf();
    }
    let ts = canvas.tile_size();
    let tl = ts * ts;
    let ghost c = canvas@;
    let ghost f = |k: (i32, i32)| buffer_snapshot(c, layer as nat, k);
    let mut seen: Vec<(i32, i32)> = Vec::new();
    let mut i: usize = 0;
    while i < keys.len()
        invariant
            i <= keys@.len(),
            canvas.wf(),
            c == canvas@,
            ts == c.tile_size,
            tl == c.tile_len(),
            f == (|k: (i32, i32)| buffer_snapshot(c, layer as nat, k)),
            seen@ == first_occurrences(keys@.subrange(0, i as int)),
            action@.selection == old(action)@.selection,
            action@.transform == old(action)@.transform,
            action@.tiles == old(action)@.tiles + seen@.map_values(f),
        decreases keys@.len() - i,
    {
        let k = keys[i];
        proof {
            assert(keys@.subrange(0, i + 1).drop_last() =~= keys@.subrange(0, i as int));
            assert(keys@.subrange(0, i + 1).last() == k);
        }
        if !lists_key(&seen, k) {
            let data = match canvas.get_layer_tile_data(layer, k.0, k.1) {
                Some(d) => d,
                None => vec![Pixel::transparent(); tl],
            };
            let ghost before = action@.tiles;
            action.tiles.push(TileSnapshot { tx: k.0, ty: k.1, layer_idx: layer, x0: 0, y0: 0, width: ts, height: ts, data });
            seen.push(k);
            proof {
                assert(data@ == f(k).data) by {
                    if tile_data(c.tile(layer as int, k.0, k.1)) is None {
                        assert(data@ =~= filled(c.tile_len(), transparent()));
                    }
                }
                assert(action@.tiles =~= before.push(f(k)));
                assert(action@.tiles =~= old(action)@.tiles + seen@.map_values(f));
            }
        }
        i = i + 1;
    }
    proof {
        assert(keys@.subrange(0, keys@.len() as int) =~= keys@);
    }
}

/// Giving tiles a buffer changes no pixel, the geometry or the layers.
proof fn lemma_ensure_all(c: CanvasView, layer: int, keys: Seq<(usize, usize)>)
    requires
        0 <= layer < c.layers.len(),
        c.wf(),
    ensures
        ensure_all(c, layer, keys).wf(),
        Canvas::same_except_tiles(ensure_all(c, layer, keys), c),
        forall|l: int, tx: i32, ty: i32| #[trigger] ensure_all(c, layer, keys).pixels(l, tx, ty) == c.pixels(l, tx, ty),
    decreases keys.len(),
{
    if keys.len() > 0 {
        lemma_ensure_all(c, layer, keys.drop_last());
        let p = ensure_all(c, layer, keys.drop_last());
        let k = keys.last();
        p.lemma_ensured_pixels(layer, k.0 as i32, k.1 as i32);
        let q = p.ensure_tile(layer, k.0 as i32, k.1 as i32);
        assert forall|l: int, tx: i32, ty: i32| #[trigger] q.pixels(l, tx, ty) == c.pixels(l, tx, ty) by {
            assert(p.pixels(l, tx, ty) == c.pixels(l, tx, ty));
            if (l, tx, ty) != (layer, k.0 as i32, k.1 as i32) {
                assert(q.tile(l, tx, ty) == p.tile(l, tx, ty));
                assert(q.fill(l) == p.fill(l));
                assert(q.tile_len() == p.tile_len());
            } else {
                assert(q.pixels(l, tx, ty) == p.pixels(l, tx, ty));
            }
        }
        assert forall|kk: (int, i32, i32)| #[trigger] q.tiles.dom().contains(kk) implies 0 <= kk.0 < q.layers.len()
            && crate::canvas::tile_ok(q.tiles[kk], q.tile_len()) by {
            if kk != (layer, k.0 as i32, k.1 as i32) {
                assert(p.tiles.dom().contains(kk));
            }
        }
    }
}

/// Whether `k` is in the list.
fn has_key(v: &Vec<(usize, usize)>, k: (usize, usize)) -> (r: bool)
    ensures
        r == v@.contains(k),
{
    let mut i: usize = 0;
    while i < v.len()
        invariant
            i <= v@.len(),
            forall|j: int| 0 <= j < i ==> v@[j] != k,
        decreases v@.len() - i,
    {
        if v[i].0 == k.0 && v[i].1 == k.1 {
            assert(v@[i as int] == k);
            return true;
        }
        i = i + 1;
    }
    false
}

/// Snapshot, before a dab changes them, the whole tiles of the active layer
/// that the regions touch and that were not snapshotted yet during this
/// stroke: each such tile gets a buffer, its pixels are appended to the
/// action as a full-tile snapshot, and its coordinates are appended to
/// `modified`, so that every tile a region lies in is then listed there.
/// Nothing happens when there is no active layer.
pub fn snapshot_tiles<S, T>(
    canvas: &mut Canvas,
    regions: &Vec<TileRegion>,
    undo_action: &mut UndoAction<S, T>,
    modified: &mut Vec<(usize, usize)>,
)
    requires
        old(canvas).wf(),
        forall|i: int| 0 <= i < regions@.len() ==> (#[trigger] regions@[i]).tx <= i32::MAX && regions@[i].ty <= i32::MAX,
    ensures
        final(canvas).wf(),
        final(undo_action).selection == old(undo_action).selection,
        final(undo_action).transform == old(undo_action).transform,
        ({
            let c = old(canvas)@;
            let a = c.active_layer_idx;
            let f = fresh_keys(old(modified)@, regions@);
            if a < c.layers.len() {
                &&& final(modified)@ == old(modified)@ + f
                &&& final(undo_action)@.tiles == old(undo_action)@.tiles + f.map_values(
                    |k: (usize, usize)| full_snapshot(c, a, k),
                )
                &&& final(canvas)@ == ensure_all(c, a as int, f)
                &&& forall|i: int|
                    0 <= i < regions@.len() ==> final(modified)@.contains((#[trigger] regions@[i].tx, regions@[i].ty))
            } else {
                &&& final(modified)@ == old(modified)@
                &&& final(undo_action)@ == old(undo_action)@
                &&& final(canvas)@ == c
            }
        }),
{
    let layer_idx = canvas.active_layer();
    let ts = canvas.tile_size();
    let ghost c0 = canvas@;
    let ghost m0 = modified@;
    let ghost t0 = undo_action@.tiles;
    let ghost exists = layer_idx < c0.layers.len();
    let n = regions.len();
    let mut i: usize = 0;
    proof {
        canvas.lemma_view_wf();
        assert(modified@ =~= m0 + fresh_keys(m0, regions@.subrange(0, 0)));
        assert(undo_action@.tiles =~= t0 + fresh_keys(m0, regions@.subrange(0, 0)).map_values(
            |k: (usize, usize)| full_snapshot(c0, layer_idx as nat, k),
        ));
    }
    while i < n
        invariant
            n == regions@.len(),
            i <= n,
            canvas.wf(),
            c0.wf(),
            c0 == old(canvas)@,
            m0 == old(modified)@,
            t0 == old(undo_action)@.tiles,
            layer_idx == c0.active_layer_idx,
            ts == c0.tile_size,
            forall|j: int| 0 <= j < regions@.len() ==> (#[trigger] regions@[j]).tx <= i32::MAX && regions@[j].ty <= i32::MAX,
            undo_action.selection == old(undo_action).selection,
            undo_action.transform == old(undo_action).transform,
            exists == (layer_idx < c0.layers.len()),
            exists ==> modified@ == m0 + fresh_keys(m0, regions@.subrange(0, i as int)),
            exists ==> undo_action@.tiles == t0 + fresh_keys(m0, regions@.subrange(0, i as int)).map_values(
                |k: (usize, usize)| full_snapshot(c0, layer_idx as nat, k),
            ),
            exists ==> canvas@ == ensure_all(c0, layer_idx as int, fresh_keys(m0, regions@.subrange(0, i as int))),
            !exists ==> modified@ == m0 && undo_action@ == old(undo_action)@ && canvas@ == c0,
        decreases n - i,
    {
        let tx = regions[i].tx;
        let ty = regions[i].ty;
        let ghost k = (tx, ty);
        let ghost pre = regions@.subrange(0, i as int);
        let ghost post = regions@.subrange(0, i + 1);
        proof {
            assert(post.drop_last() =~= pre);
            assert(post.last() == regions@[i as int]);
            if exists {
                lemma_ensure_all(c0, layer_idx as int, fresh_keys(m0, pre));
            }
        }
        let ghost tiles_before = undo_action@.tiles;
        let seen = has_key(modified, (tx, ty));
        if !seen {
            canvas.ensure_layer_tile_exists(layer_idx, tx, ty);
            match canvas.get_layer_tile_data(layer_idx, tx as i32, ty as i32) {
                Some(data) => {
                    let ghost dv = data@;
                    undo_action.tiles.push(
                        TileSnapshot {
                            tx: tx as i32,
                            ty: ty as i32,
                            layer_idx,
                            x0: 0,
                            y0: 0,
                            width: ts,
                            height: ts,
                            data,
                        },
                    );
                    modified.push((tx, ty));
                    proof {
                        let f = fresh_keys(m0, pre);
                        let cp = ensure_all(c0, layer_idx as int, f);
                        cp.lemma_ensured_pixels(layer_idx as int, tx as i32, ty as i32);
                        assert(dv == c0.pixels(layer_idx as int, tx as i32, ty as i32));
                        assert(!m0.contains(k)) by {
                            if m0.contains(k) {
                                let j = choose|j: int| 0 <= j < m0.len() && m0[j] == k;
                                assert(old(modified)@ == m0);
                                assert((m0 + f)[j] == k);
                            }
                        }
                        assert(!f.contains(k)) by {
                            if f.contains(k) {
                                let j = choose|j: int| 0 <= j < f.len() && f[j] == k;
                                assert((m0 + f)[m0.len() + j] == k);
                            }
                        }
                        assert(fresh_keys(m0, post) == f.push(k));
                        assert(modified@ =~= m0 + f.push(k));
                        let snap = full_snapshot(c0, layer_idx as nat, k);
                        assert(undo_action@.tiles.last() == snap);
                        assert(f.push(k).map_values(|kk: (usize, usize)| full_snapshot(c0, layer_idx as nat, kk))
                            =~= f.map_values(|kk: (usize, usize)| full_snapshot(c0, layer_idx as nat, kk)).push(snap));
                        assert(undo_action@.tiles =~= tiles_before.push(snap));
                        assert(f.push(k).drop_last() =~= f);
                        assert(undo_action@.tiles =~= t0 + f.push(k).map_values(
                            |kk: (usize, usize)| full_snapshot(c0, layer_idx as nat, kk),
                        ));
                    }
                },
                None => {
                    proof {
                        assert(!exists);
                    }
                },
            }
        } else {
            proof {
                if exists {
                    let f = fresh_keys(m0, pre);
                    assert((m0 + f).contains(k));
                    let j = choose|j: int| 0 <= j < (m0 + f).len() && (m0 + f)[j] == k;
                    if j < m0.len() {
                        assert(m0[j] == k);
                        assert(m0.contains(k));
                    } else {
                        assert(f[j - m0.len()] == k);
                        assert(f.contains(k));
                    }
                    assert(fresh_keys(m0, post) == f);
                }
            }
        }
        i = i + 1;
    }
    proof {
        assert(regions@.subrange(0, n as int) =~= regions@);
        lemma_regions_recorded(m0, regions@);
    }
}

/// Every tile a region lies in is recorded once the fresh tiles are added.
pub proof fn lemma_regions_recorded(done: Seq<(usize, usize)>, regs: Seq<TileRegion>)
    ensures
        forall|i: int| 0 <= i < regs.len() ==> (done + fresh_keys(done, regs)).contains((#[trigger] regs[i].tx, regs[i].ty)),
    decreases regs.len(),
{
    if regs.len() > 0 {
        let front = regs.drop_last();
        lemma_regions_recorded(done, front);
        let prev = fresh_keys(done, front);
        let f = fresh_keys(done, regs);
        assert forall|x: (usize, usize)| (done + prev).contains(x) implies (done + f).contains(x) by {
            let j = choose|j: int| 0 <= j < (done + prev).len() && (done + prev)[j] == x;
            assert((done + f)[j] == (done + prev)[j]);
        }
        assert forall|i: int| 0 <= i < regs.len() implies (done + f).contains((#[trigger] regs[i].tx, regs[i].ty)) by {
            let k = (regs[i].tx, regs[i].ty);
            if i < front.len() {
                assert(front[i] == regs[i]);
                assert((done + prev).contains((front[i].tx, front[i].ty)));
            } else {
                assert(regs[i] == regs.last());
                if done.contains(k) {
                    let j = choose|j: int| 0 <= j < done.len() && done[j] == k;
                    assert((done + f)[j] == k);
                } else if prev.contains(k) {
                    let j = choose|j: int| 0 <= j < prev.len() && prev[j] == k;
                    assert((done + prev)[done.len() + j] == k);
                    assert((done + prev).contains(k));
                } else {
                    assert(f == prev.push(k));
                    assert((done + f)[(done.len() + prev.len()) as int] == k);
                }
            }
        }
    }
}

/// An action recorded during a stroke on layer `layer`: its snapshots are
/// the whole tiles listed in `modified`, one each and in the same order,
/// and no tile is listed twice.
pub open spec fn recorded<S, T>(
    tiles: Seq<SnapshotView>,
    modified: Seq<(usize, usize)>,
    layer: nat,
    ts: nat,
) -> bool {
    &&& tiles.len() == modified.len()
    &&& forall|i: int, j: int| 0 <= i < j < modified.len() ==> modified[i] != modified[j]
    &&& forall|i: int|
        0 <= i < tiles.len() ==> {
            &&& (#[trigger] tiles[i]).tx == modified[i].0 as i32
            &&& tiles[i].ty == modified[i].1 as i32
            &&& modified[i].0 <= i32::MAX
            &&& modified[i].1 <= i32::MAX
            &&& tiles[i].layer_idx == layer
            &&& tiles[i].x0 == 0
            &&& tiles[i].y0 == 0
            &&& tiles[i].width == ts
            &&& tiles[i].height == ts
            &&& tiles[i].data.len() == ts * ts
        }
}

/// Snapshotting keeps an action recorded on the active layer recorded.
pub proof fn lemma_snapshot_keeps_recorded<S, T>(
    c: CanvasView,
    tiles: Seq<SnapshotView>,
    modified: Seq<(usize, usize)>,
    regions: Seq<TileRegion>,
)
    requires
        c.wf(),
        c.active_layer_idx < c.layers.len(),
        recorded::<S, T>(tiles, modified, c.active_layer_idx, c.tile_size),
        forall|i: int| 0 <= i < regions.len() ==> (#[trigger] regions[i]).tx <= i32::MAX && regions[i].ty <= i32::MAX,
    ensures
        recorded::<S, T>(
            tiles + fresh_keys(modified, regions).map_values(
                |k: (usize, usize)| full_snapshot(c, c.active_layer_idx, k),
            ),
            modified + fresh_keys(modified, regions),
            c.active_layer_idx,
            c.tile_size,
        ),
{
    lemma_fresh_keys(modified, regions);
    let f = fresh_keys(modified, regions);
    let t2 = tiles + f.map_values(|k: (usize, usize)| full_snapshot(c, c.active_layer_idx, k));
    let m2 = modified + f;
    assert forall|i: int, j: int| 0 <= i < j < m2.len() implies m2[i] != m2[j] by {
        if j >= modified.len() && i < modified.len() {
            assert(f[j - modified.len()] == m2[j]);
            assert(!modified.contains(f[j - modified.len()]));
        }
    }
    assert forall|i: int| 0 <= i < t2.len() implies {
        &&& (#[trigger] t2[i]).tx == m2[i].0 as i32
        &&& t2[i].ty == m2[i].1 as i32
        &&& m2[i].0 <= i32::MAX
        &&& m2[i].1 <= i32::MAX
        &&& t2[i].layer_idx == c.active_layer_idx
        &&& t2[i].x0 == 0
        &&& t2[i].y0 == 0
        &&& t2[i].width == c.tile_size
        &&& t2[i].height == c.tile_size
        &&& t2[i].data.len() == c.tile_size * c.tile_size
    } by {
        if i >= tiles.len() {
            let k = f[i - tiles.len()];
            assert(t2[i] == full_snapshot(c, c.active_layer_idx, k));
            assert(m2[i] == k);
            if c.tiles.dom().contains((c.active_layer_idx as int, k.0 as i32, k.1 as i32)) {
                assert(crate::canvas::tile_ok(c.tiles[(c.active_layer_idx as int, k.0 as i32, k.1 as i32)], c.tile_len()));
            }
        }
    }
}

/// New keys are fresh, distinct and come from the regions.
proof fn lemma_fresh_keys(done: Seq<(usize, usize)>, regs: Seq<TileRegion>)
    ensures
        forall|i: int| 0 <= i < fresh_keys(done, regs).len() ==> !done.contains(#[trigger] fresh_keys(done, regs)[i]),
        forall|i: int, j: int|
            0 <= i < j < fresh_keys(done, regs).len() ==> fresh_keys(done, regs)[i] != fresh_keys(done, regs)[j],
        forall|i: int|
            0 <= i < fresh_keys(done, regs).len() ==> exists|r: int|
                0 <= r < regs.len() && (regs[r].tx, regs[r].ty) == #[trigger] fresh_keys(done, regs)[i],
    decreases regs.len(),
{
    if regs.len() > 0 {
        lemma_fresh_keys(done, regs.drop_last());
        let prev = fresh_keys(done, regs.drop_last());
        let f = fresh_keys(done, regs);
        assert forall|i: int| 0 <= i < f.len() implies exists|r: int|
            0 <= r < regs.len() && (regs[r].tx, regs[r].ty) == #[trigger] f[i] by {
            if i < prev.len() {
                let r = choose|r: int| 0 <= r < regs.drop_last().len() && (regs.drop_last()[r].tx, regs.drop_last()[r].ty) == prev[i];
                assert(regs[r] == regs.drop_last()[r]);
            } else {
                assert(f[i] == (regs.last().tx, regs.last().ty));
                assert(regs[regs.len() - 1] == regs.last());
            }
        }
        assert forall|i: int, j: int| 0 <= i < j < f.len() implies f[i] != f[j] by {
            if j == prev.len() {
                assert(f[i] == prev[i]);
            }
        }
    }
}

/// An action recorded during a stroke can be undone and redone: its swap
/// is reversible on any canvas with the same tile size.
pub proof fn lemma_recorded_is_reversible<S, T>(
    c: CanvasView,
    a: crate::history::ActionView<S, T>,
    modified: Seq<(usize, usize)>,
    layer: nat,
)
    requires
        recorded::<S, T>(a.tiles, modified, layer, c.tile_size),
    ensures
        reversible(c, a),
{
    let ts = c.tile_size;
    assert forall|i: int| 0 <= i < a.tiles.len() implies restorable(c, #[trigger] a.tiles[i]) by {
        let t = a.tiles[i];
        assert(t.width == ts && t.height == ts && t.x0 == 0 && t.y0 == 0 && t.data.len() == ts * ts);
        if ts > 0 {
            assert((0 + ts - 1) * ts + 0 + ts <= ts * ts) by (nonlinear_arith)
                requires
                    ts > 0,
            ;
        }
    }
    assert forall|i: int, j: int, k: (int, i32, i32), p: int|
        0 <= i < a.tiles.len() && 0 <= j < a.tiles.len() && i != j && #[trigger] hits(c, a.tiles[i], k, p) implies !#[trigger] hits(
        c,
        a.tiles[j],
        k,
        p,
    ) by {
        let (lo, hi) = if i < j { (i, j) } else { (j, i) };
        assert(modified[lo] != modified[hi]);
        let ti = a.tiles[i];
        let tj = a.tiles[j];
        assert(ti.tx == modified[i].0 as i32);
        assert(tj.tx == modified[j].0 as i32);
        assert(ti.ty == modified[i].1 as i32);
        assert(tj.ty == modified[j].1 as i32);
        assert(snapshot_key(ti) != snapshot_key(tj));
    }
}

} // verus!

verus! {

/// The whole-tile snapshots taken before a layer is transformed can be
/// undone and redone: their swap is reversible on any canvas with the same
/// tile size.
pub proof fn lemma_layer_snapshots_reversible<S, T>(
    c0: CanvasView,
    c: CanvasView,
    layer: nat,
    keys: Seq<(i32, i32)>,
    selection: Option<S>,
    transform: Option<T>,
)
    requires
        c0.wf(),
        c.tile_size == c0.tile_size,
    ensures
        reversible(
            c,
            crate::history::ActionView {
                tiles: first_occurrences(keys).map_values(|k: (i32, i32)| buffer_snapshot(c0, layer, k)),
                selection,
                transform,
            },
        ),
{
    lemma_first_occurrences_distinct(keys);
    let f = first_occurrences(keys);
    let ss = f.map_values(|k: (i32, i32)| buffer_snapshot(c0, layer, k));
    let ts = c.tile_size;
    assert forall|i: int| 0 <= i < ss.len() implies restorable(c, #[trigger] ss[i]) by {
        let k = f[i];
        assert(ss[i] == buffer_snapshot(c0, layer, k));
        if c0.tiles.dom().contains((layer as int, k.0, k.1)) {
            assert(crate::canvas::tile_ok(c0.tiles[(layer as int, k.0, k.1)], c0.tile_len()));
        }
        if ts > 0 {
            assert((0 + ts - 1) * ts + 0 + ts <= ts * ts) by (nonlinear_arith)
                requires
                    ts > 0,
            ;
        }
    }
    assert forall|i: int, j: int, k: (int, i32, i32), p: int|
        0 <= i < ss.len() && 0 <= j < ss.len() && i != j && #[trigger] hits(c, ss[i], k, p) implies !#[trigger] hits(
        c,
        ss[j],
        k,
        p,
    ) by {
        assert(ss[i] == buffer_snapshot(c0, layer, f[i]));
        assert(ss[j] == buffer_snapshot(c0, layer, f[j]));
        if i < j {
            assert(f[i] != f[j]);
        } else {
            assert(f[j] != f[i]);
        }
    }
}

} // verus!
