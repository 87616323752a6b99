use vstd::prelude::*;
use crate::canvas::{tiles_needed, tile_data, Canvas, CanvasView};
use crate::stroke::TileSpan;

verus! {

/// Where a canvas tile lives in the texture atlases, and whether its
/// texture must be refreshed.
#[derive(Clone, Copy, Debug, PartialEq, Eq, Structural)]
pub struct CanvasTile {
    pub dirty: bool,
    pub atlas_idx: usize,
    pub atlas_x: usize,
    pub atlas_y: usize,
    pub pixel_w: usize,
    pub pixel_h: usize,
    pub tx: usize,
    pub ty: usize,
}

/// Tiles per atlas row: how many tiles fit across an atlas, at least one.
pub open spec fn atlas_columns(tile: nat, atlas: nat) -> nat {
    if atlas / tile >= 1 { atlas / tile } else { 1 }
}

pub open spec fn min_nat(a: nat, b: nat) -> nat {
    if a <= b { a } else { b }
}

/// The atlas entry of tile (tx, ty) of a `width` by `height` canvas: tiles
/// are numbered rows first and packed into atlases of `columns` by
/// `columns` slots, rows first; a tile is at most `tile` pixels across and
/// is cut at the canvas border.
pub open spec fn tile_entry(width: nat, height: nat, tile: nat, atlas: nat, tx: nat, ty: nat) -> CanvasTile {
    let cols = atlas_columns(tile, atlas);
    let cap = cols * cols;
    let flat = ty * tiles_needed(width, tile) + tx;
    let local = flat % cap;
    CanvasTile {
        dirty: true,
        atlas_idx: (flat / cap) as usize,
        atlas_x: ((local % cols) * tile) as usize,
        atlas_y: ((local / cols) * tile) as usize,
        pixel_w: min_nat(tile, (width - tx * tile) as nat) as usize,
        pixel_h: min_nat(tile, (height - ty * tile) as nat) as usize,
        tx: tx as usize,
        ty: ty as usize,
    }
}

/// Machine limits of the layout: the tile and slot counts fit in `usize`.
pub open spec fn grid_fits(width: nat, height: nat, tile: nat, atlas: nat) -> bool {
    &&& tile > 0
    &&& width + tile <= usize::MAX
    &&& height + tile <= usize::MAX
    &&& atlas_columns(tile, atlas) * atlas_columns(tile, atlas) * tile <= usize::MAX
    &&& tiles_needed(width, tile) * tiles_needed(height, tile) + atlas_columns(tile, atlas) * atlas_columns(tile, atlas)
        <= usize::MAX
}

proof fn lemma_tile_cut(len: nat, tile: nat, t: nat)
    requires
        tile > 0,
        t < tiles_needed(len, tile),
    ensures
        t * tile < len,
{
    let n = tiles_needed(len, tile);
    assert(n * tile <= len + tile - 1) by {
        vstd::arithmetic::div_mod::lemma_fundamental_div_mod((len + tile - 1) as int, tile as int);
        vstd::arithmetic::mul::lemma_mul_is_commutative(n as int, tile as int);
    }
    assert(t * tile + tile <= n * tile) by (nonlinear_arith)
        requires
            t < n,
    ;
}

/// Lay out the tiles of a `width` by `height` canvas in texture atlases of
/// `atlas_size` pixels: returns one entry per tile, rows of tiles first,
/// every entry marked dirty, and the number of atlases needed.
pub fn build_tile_grid(width: usize, height: usize, tile_size: usize, atlas_size: usize) -> (r: (
    Vec<CanvasTile>,
    usize,
))
    requires
        grid_fits(width as nat, height as nat, tile_size as nat, atlas_size as nat),
    ensures
        ({
            let tx_n = tiles_needed(width as nat, tile_size as nat);
            let ty_n = tiles_needed(height as nat, tile_size as nat);
            let cols = atlas_columns(tile_size as nat, atlas_size as nat);
            let cap = cols * cols;
            &&& r.1 == tiles_needed(tx_n * ty_n, cap)
            &&& r.0@.len() == tx_n * ty_n
            &&& forall|ty: int, tx: int|
                0 <= ty < ty_n && 0 <= tx < tx_n ==> #[trigger] r.0@[ty * tx_n + tx] == tile_entry(
                    width as nat,
                    height as nat,
                    tile_size as nat,
                    atlas_size as nat,
                    tx as nat,
                    ty as nat,
                )
        }),
{
    let ts = tile_size;
    let tiles_x = (width + ts - 1) / ts;
    let tiles_y = (height + ts - 1) / ts;
    let per = atlas_size / ts;
    let atlas_cols = if per >= 1 { per } else { 1 };
    let ghost cols = atlas_cols as nat;
    proof {
        assert(cols * cols <= cols * cols * ts) by (nonlinear_arith)
            requires
                ts >= 1,
        ;
        assert(tiles_x * tiles_y <= usize::MAX);
    }
    let atlas_capacity = atlas_cols * atlas_cols;
    let total_tiles = tiles_x * tiles_y;
    proof {
        assert(atlas_capacity >= 1) by (nonlinear_arith)
            requires
                atlas_cols >= 1,
                atlas_capacity == atlas_cols * atlas_cols,
        ;
    }
    let atlas_count = (total_tiles + atlas_capacity - 1) / atlas_capacity;
    let mut tiles: Vec<CanvasTile> = Vec::new();
    let mut ty: usize = 0;
    while ty < tiles_y
        invariant
            grid_fits(width as nat, height as nat, ts as nat, atlas_size as nat),
            ts == tile_size,
            tiles_x == tiles_needed(width as nat, ts as nat),
            tiles_y == tiles_needed(height as nat, ts as nat),
            atlas_cols == atlas_columns(ts as nat, atlas_size as nat),
            atlas_capacity == atlas_cols * atlas_cols,
            atlas_capacity >= 1,
            atlas_cols >= 1,
            ty <= tiles_y,
            tiles@.len() == ty * tiles_x,
            forall|y: int, x: int|
                0 <= y < ty && 0 <= x < tiles_x ==> #[trigger] tiles@[y * tiles_x + x] == tile_entry(
                    width as nat,
                    height as nat,
                    ts as nat,
                    atlas_size as nat,
                    x as nat,
                    y as nat,
                ),
        decreases tiles_y - ty,
    {
        let ghost row_start = tiles@;
        let mut tx: usize = 0;
        while tx < tiles_x
            invariant
                grid_fits(width as nat, height as nat, ts as nat, atlas_size as nat),
                ts == tile_size,
                tiles_x == tiles_needed(width as nat, ts as nat),
                tiles_y == tiles_needed(height as nat, ts as nat),
                atlas_cols == atlas_columns(ts as nat, atlas_size as nat),
                atlas_capacity == atlas_cols * atlas_cols,
                atlas_capacity >= 1,
                atlas_cols >= 1,
                ty < tiles_y,
                tx <= tiles_x,
                row_start.len() == ty * tiles_x,
                tiles@.len() == row_start.len() + tx,
                tiles@.subrange(0, row_start.len() as int) == row_start,
                forall|x: int|
                    0 <= x < tx ==> #[trigger] tiles@[row_start.len() + x] == tile_entry(
                        width as nat,
                        height as nat,
                        ts as nat,
                        atlas_size as nat,
                        x as nat,
                        ty as nat,
                    ),
            decreases tiles_x - tx,
        {
            proof {
                assert(ty * tiles_x + tx < tiles_x * tiles_y) by (nonlinear_arith)
                    requires
                        ty < tiles_y,
                        tx < tiles_x,
                ;
                lemma_tile_cut(width as nat, ts as nat, tx as nat);
                lemma_tile_cut(height as nat, ts as nat, ty as nat);
            }
            let flat_idx = ty * tiles_x + tx;
            let atlas_idx = flat_idx / atlas_capacity;
            let atlas_local = flat_idx % atlas_capacity;
            proof {
                assert(atlas_local / atlas_cols < atlas_cols) by (nonlinear_arith)
                    requires
                        atlas_local < atlas_cols * atlas_cols,
                        atlas_cols >= 1,
                ;
                assert((atlas_local % atlas_cols) * ts <= atlas_cols * atlas_cols * ts) by (nonlinear_arith)
                    requires
                        atlas_local % atlas_cols < atlas_cols,
                        atlas_cols >= 1,
                        ts >= 1,
                ;
                assert((atlas_local / atlas_cols) * ts <= atlas_cols * atlas_cols * ts) by (nonlinear_arith)
                    requires
                        atlas_local / atlas_cols < atlas_cols,
                        atlas_cols >= 1,
                        ts >= 1,
                ;
            }
            let atlas_tile_x = (atlas_local % atlas_cols) * ts;
            let atlas_tile_y = (atlas_local / atlas_cols) * ts;
            let rem_w = width - tx * ts;
            let rem_h = height - ty * ts;
            let tile_w = if ts < rem_w { ts } else { rem_w };
            let tile_h = if ts < rem_h { ts } else { rem_h };
            tiles.push(
                CanvasTile {
                    dirty: true,
                    atlas_idx,
                    atlas_x: atlas_tile_x,
                    atlas_y: atlas_tile_y,
                    pixel_w: tile_w,
                    pixel_h: tile_h,
                    tx,
                    ty,
                },
            );
            proof {
                assert(tiles@.subrange(0, row_start.len() as int) =~= row_start);
                assert forall|x: int| 0 <= x < tx + 1 implies #[trigger] tiles@[row_start.len() + x] == tile_entry(
                    width as nat,
                    height as nat,
                    ts as nat,
                    atlas_size as nat,
                    x as nat,
                    ty as nat,
                ) by {
                    if x == tx {
                        assert(tiles@[row_start.len() + x] == tiles@.last());
                    }
                }
            }
            tx = tx + 1;
        }
        proof {
            assert(tiles@.len() == (ty + 1) * tiles_x) by (nonlinear_arith)
                requires
                    tiles@.len() == ty * tiles_x + tiles_x,
            ;
            assert forall|y: int, x: int| 0 <= y < ty + 1 && 0 <= x < tiles_x implies #[trigger] tiles@[y * tiles_x
                + x] == tile_entry(width as nat, height as nat, ts as nat, atlas_size as nat, x as nat, y as nat) by {
                if y < ty {
                    assert(y * tiles_x + x < ty * tiles_x) by (nonlinear_arith)
                        requires
                            y < ty,
                            0 <= x < tiles_x,
                    ;
                    assert(tiles@[y * tiles_x + x] == tiles@.subrange(0, row_start.len() as int)[y * tiles_x + x]);
                } else {
                    assert(y * tiles_x + x == row_start.len() + x);
                }
            }
        }
        ty = ty + 1;
    }
    proof {
        vstd::arithmetic::mul::lemma_mul_is_commutative(tiles_x as int, tiles_y as int);
        assert(atlas_count == tiles_needed(total_tiles as nat, atlas_capacity as nat));
        assert forall|y: int, x: int| 0 <= y < tiles_y && 0 <= x < tiles_x implies #[trigger] tiles@[y * tiles_x
            + x] == tile_entry(width as nat, height as nat, ts as nat, atlas_size as nat, x as nat, y as nat) by {
        }
    }
    (tiles, atlas_count)
}

/// Position of tile (tx, ty) in a rows-first grid of `tiles_x` by
/// `tiles_y` tiles; `None` outside the grid.
pub fn tile_slot(tx: usize, ty: usize, tiles_x: usize, tiles_y: usize) -> (r: Option<usize>)
    requires
        tiles_x * tiles_y <= usize::MAX,
    ensures
        r is Some <==> tx < tiles_x && ty < tiles_y,
        r matches Some(i) ==> i == ty * tiles_x + tx && i < tiles_x * tiles_y,
{
    if tx >= tiles_x || ty >= tiles_y {
        return None;
    }
    proof {
        assert(ty * tiles_x + tx < tiles_x * tiles_y) by (nonlinear_arith)
            requires
                ty < tiles_y,
                tx < tiles_x,
        ;
    }
    Some(ty * tiles_x + tx)
}

/// The tiles of a canvas as shown on screen: one atlas entry per canvas
/// tile, rows of tiles first.
pub struct TileGrid {
    pub tiles: Vec<CanvasTile>,
    pub tiles_x: usize,
    pub tiles_y: usize,
}

/// The entry `t` with its texture marked for refresh.
pub open spec fn dirtied(t: CanvasTile) -> CanvasTile {
    CanvasTile { dirty: true, ..t }
}

/// Tile (tx, ty) lies in the tile range of `s` and in a grid of `nx` by
/// `ny` tiles.
pub open spec fn in_span(s: TileSpan, nx: nat, ny: nat, tx: int, ty: int) -> bool {
    &&& s.min_tx <= tx <= s.max_tx
    &&& s.min_ty <= ty <= s.max_ty
    &&& 0 <= tx < nx
    &&& 0 <= ty < ny
}

/// `f` is `o` with the tiles (tx, ty) of layer `layer` for which `keys`
/// holds given a buffer, where `layer` is a layer of `o`.
pub open spec fn ensured_where(o: CanvasView, f: CanvasView, layer: int, keys: spec_fn(int, int) -> bool) -> bool {
    &&& f == CanvasView { tiles: f.tiles, ..o }
    &&& forall|l: int, tx: i32, ty: i32|
        #[trigger] f.tile(l, tx, ty) == if l == layer && 0 <= layer < o.layers.len() && keys(tx as int, ty as int) {
            Some(o.ensured_tile(l, tx, ty))
        } else {
            o.tile(l, tx, ty)
        }
}

/// A tile waiting to have its texture refreshed: its grid position `idx`,
/// the canvas rectangle it shows and the size of the image sampled from it
/// every `step` pixels.
#[derive(Clone, Copy, Debug, PartialEq, Eq, Structural)]
pub struct TileUpload {
    pub idx: usize,
    pub x: usize,
    pub y: usize,
    pub w: usize,
    pub h: usize,
    pub out_w: usize,
    pub out_h: usize,
}

/// The refresh of entry `t` of the grid at position `idx`, for a
/// `width` by `height` canvas of `ts`-pixel tiles sampled every `step`.
pub open spec fn upload_of(t: CanvasTile, idx: nat, width: nat, height: nat, ts: nat, step: nat) -> TileUpload {
    let x = t.tx * ts;
    let y = t.ty * ts;
    let w = min_nat(ts, (width - x) as nat);
    let h = min_nat(ts, (height - y) as nat);
    TileUpload {
        idx: idx as usize,
        x: x as usize,
        y: y as usize,
        w: w as usize,
        h: h as usize,
        out_w: ((w + step - 1) / step as int) as usize,
        out_h: ((h + step - 1) / step as int) as usize,
    }
}

/// The sampling step actually used: `step` brought into 1 ..= `ts`.
pub open spec fn clamped_step(step: nat, ts: nat) -> nat {
    if step < 1 {
        1
    } else if step > ts {
        ts
    } else {
        step
    }
}

impl TileGrid {
    /// One entry per position of the grid.
    pub open spec fn wf(self) -> bool {
        self.tiles@.len() == self.tiles_x * self.tiles_y
    }

    /// Every entry lies on a `width` by `height` canvas of `ts`-pixel tiles.
    pub open spec fn on_canvas(self, width: nat, height: nat, ts: nat) -> bool {
        forall|i: int|
            0 <= i < self.tiles@.len() ==> (#[trigger] self.tiles@[i]).tx * ts < width && self.tiles@[i].ty * ts
                < height
    }

    /// The grid of a `width` by `height` canvas in atlases of `atlas_size`
    /// pixels, with the number of atlases needed.
    pub fn new(width: usize, height: usize, tile_size: usize, atlas_size: usize) -> (r: (TileGrid, usize))
        requires
            grid_fits(width as nat, height as nat, tile_size as nat, atlas_size as nat),
        ensures
            r.0.wf(),
            r.0.tiles_x == tiles_needed(width as nat, tile_size as nat),
            r.0.tiles_y == tiles_needed(height as nat, tile_size as nat),
            r.1 == tiles_needed(
                (r.0.tiles_x * r.0.tiles_y) as nat,
                atlas_columns(tile_size as nat, atlas_size as nat) * atlas_columns(
                    tile_size as nat,
                    atlas_size as nat,
                ),
            ),
            forall|ty: int, tx: int|
                0 <= ty < r.0.tiles_y && 0 <= tx < r.0.tiles_x ==> #[trigger] r.0.tiles@[ty * r.0.tiles_x + tx]
                    == tile_entry(width as nat, height as nat, tile_size as nat, atlas_size as nat, tx as nat, ty as nat),
    {
        let tiles_x = (width + tile_size - 1) / tile_size;
        let tiles_y = (height + tile_size - 1) / tile_size;
        let (tiles, count) = build_tile_grid(width, height, tile_size, atlas_size);
        (TileGrid { tiles, tiles_x, tiles_y }, count)
    }

    /// Position of tile (tx, ty) in the grid; `None` outside it.
    pub fn tile_index(&self, tx: usize, ty: usize) -> (r: Option<usize>)
        requires
            self.wf(),
        ensures
            r is Some <==> tx < self.tiles_x && ty < self.tiles_y,
            r matches Some(i) ==> i == ty * self.tiles_x + tx && i < self.tiles@.len(),
    {
        let _n = self.tiles.len();
        tile_slot(tx, ty, self.tiles_x, self.tiles_y)
    }

    /// Mark tile (tx, ty) for refresh; false, changing nothing, outside the
    /// grid.
    pub fn mark_dirty(&mut self, tx: usize, ty: usize) -> (r: bool)
        requires
            old(self).wf(),
        ensures
            final(self).wf(),
            final(self).tiles_x == old(self).tiles_x,
            final(self).tiles_y == old(self).tiles_y,
            r <==> tx < old(self).tiles_x && ty < old(self).tiles_y,
            final(self).tiles@ == if r {
                let i = ty * old(self).tiles_x + tx;
                old(self).tiles@.update(i, dirtied(old(self).tiles@[i]))
            } else {
                old(self).tiles@
            },
    {
        match self.tile_index(tx, ty) {
            Some(i) => {
                let mut t = self.tiles[i];
                t.dirty = true;
                self.tiles.set(i, t);
                true
            },
            None => false,
        }
    }

    /// Mark every tile for refresh.
    pub fn mark_all_dirty(&mut self)
        requires
            old(self).wf(),
        ensures
            final(self).wf(),
            final(self).tiles_x == old(self).tiles_x,
            final(self).tiles_y == old(self).tiles_y,
            final(self).tiles@ == old(self).tiles@.map_values(|t: CanvasTile| dirtied(t)),
    {
        let n = self.tiles.len();
        let mut i: usize = 0;
        while i < n
            invariant
                n == self.tiles@.len(),
                n == old(self).tiles@.len(),
                i <= n,
                self.tiles_x == old(self).tiles_x,
                self.tiles_y == old(self).tiles_y,
                forall|j: int| 0 <= j < i ==> #[trigger] self.tiles@[j] == dirtied(old(self).tiles@[j]),
                forall|j: int| i <= j < n ==> #[trigger] self.tiles@[j] == old(self).tiles@[j],
            decreases n - i,
        {
            let mut t = self.tiles[i];
            t.dirty = true;
            self.tiles.set(i, t);
            i = i + 1;
        }
        assert(self.tiles@ =~= old(self).tiles@.map_values(|t: CanvasTile| dirtied(t)));
    }

    /// Mark for refresh every tile of the grid in the tile range of `span`,
    /// making sure each of them has a buffer on the active layer of
    /// `canvas`.
    pub fn mark_span_dirty(&mut self, canvas: &mut Canvas, span: TileSpan)
        requires
            old(self).wf(),
            old(canvas).wf(),
            span.max_tx <= i32::MAX,
            span.max_ty <= i32::MAX,
        ensures
            final(self).wf(),
            final(canvas).wf(),
            final(self).tiles_x == old(self).tiles_x,
            final(self).tiles_y == old(self).tiles_y,
            forall|ty: int, tx: int|
                0 <= ty < old(self).tiles_y && 0 <= tx < old(self).tiles_x ==> #[trigger] final(self).tiles@[ty
                    * old(self).tiles_x + tx] == if in_span(span, old(self).tiles_x as nat, old(self).tiles_y as nat, tx, ty) {
                    dirtied(old(self).tiles@[ty * old(self).tiles_x + tx])
                } else {
                    old(self).tiles@[ty * old(self).tiles_x + tx]
                },
            ensured_where(
                old(canvas)@,
                final(canvas)@,
                old(canvas)@.active_layer_idx as int,
                |tx: int, ty: int| in_span(span, old(self).tiles_x as nat, old(self).tiles_y as nat, tx, ty),
            ),
    {
        let ghost o = old(self).tiles@;
        let ghost oc = old(canvas)@;
        let ghost nx = self.tiles_x as nat;
        let ghost ny = self.tiles_y as nat;
        let ghost a = oc.active_layer_idx as int;
        let mut ty = span.min_ty;
        while ty <= span.max_ty
            invariant
                self.wf(),
                canvas.wf(),
                self.tiles_x == nx,
                self.tiles_y == ny,
                o.len() == nx * ny,
                span.max_tx <= i32::MAX,
                span.max_ty <= i32::MAX,
                span.min_ty <= ty,
                a == oc.active_layer_idx,
                forall|r: int, c: int|
                    0 <= r < ny && 0 <= c < nx ==> #[trigger] self.tiles@[r * nx + c] == if in_span(span, nx, ny, c, r)
                        && r < ty {
                        dirtied(o[r * nx + c])
                    } else {
                        o[r * nx + c]
                    },
                ensured_where(oc, canvas@, a, |c: int, r: int| in_span(span, nx, ny, c, r) && r < ty),
            decreases span.max_ty + 1 - ty,
        {
            let mut tx = span.min_tx;
            while tx <= span.max_tx
                invariant
                    self.wf(),
                    canvas.wf(),
                    self.tiles_x == nx,
                    self.tiles_y == ny,
                    o.len() == nx * ny,
                    span.max_tx <= i32::MAX,
                    span.max_ty <= i32::MAX,
                    span.min_ty <= ty <= span.max_ty,
                    span.min_tx <= tx,
                    a == oc.active_layer_idx,
                    forall|r: int, c: int|
                        0 <= r < ny && 0 <= c < nx ==> #[trigger] self.tiles@[r * nx + c] == if in_span(
                            span,
                            nx,
                            ny,
                            c,
                            r,
                        ) && (r < ty || (r == ty && c < tx)) {
                            dirtied(o[r * nx + c])
                        } else {
                            o[r * nx + c]
                        },
                    ensured_where(
                        oc,
                        canvas@,
                        a,
                        |c: int, r: int| in_span(span, nx, ny, c, r) && (r < ty || (r == ty && c < tx)),
                    ),
                decreases span.max_tx + 1 - tx,
            {
                let ghost before = self.tiles@;
                let ghost cb = canvas@;
                if self.mark_dirty(tx, ty) {
                    canvas.ensure_tile_exists(tx, ty);
                    proof {
                        let k = (ty * nx + tx) as int;
                        lemma_grid_index(nx, ny, ty as int, tx as int, ty as int, tx as int);
                        assert forall|r: int, c: int|
                            0 <= r < ny && 0 <= c < nx implies #[trigger] self.tiles@[r * nx + c] == if in_span(
                                span,
                                nx,
                                ny,
                                c,
                                r,
                            ) && (r < ty || (r == ty && c < tx + 1)) {
                                dirtied(o[r * nx + c])
                            } else {
                                o[r * nx + c]
                            } by {
                            lemma_grid_index(nx, ny, r, c, ty as int, tx as int);
                            assert(self.tiles@ == before.update(k, dirtied(before[k])));
                            assert(before[r * nx + c] == if in_span(span, nx, ny, c, r) && (r < ty || (r == ty && c
                                < tx)) {
                                dirtied(o[r * nx + c])
                            } else {
                                o[r * nx + c]
                            });
                            if r == ty && c == tx {
                                assert(r * nx + c == k);
                                assert(self.tiles@[k] == dirtied(before[k]));
                                assert(before[k] == o[k]);
                                assert(in_span(span, nx, ny, c, r));
                            } else {
                                assert(r * nx + c != k);
                                assert(before.len() == nx * ny);
                                assert(0 <= r * nx + c < before.len());
                                assert(self.tiles@[r * nx + c] == before[r * nx + c]);
                            }
                        }
                        assert forall|l: int, x: i32, y: i32|
                            #[trigger] canvas@.tile(l, x, y) == if l == a && 0 <= a < oc.layers.len() && (in_span(
                                span,
                                nx,
                                ny,
                                x as int,
                                y as int,
                            ) && (y < ty || (y == ty && x < tx + 1))) {
                                Some(oc.ensured_tile(l, x, y))
                            } else {
                                oc.tile(l, x, y)
                            } by {
                            assert(cb.tile(l, x, y) == if l == a && 0 <= a < oc.layers.len() && (in_span(
                                span,
                                nx,
                                ny,
                                x as int,
                                y as int,
                            ) && (y < ty || (y == ty && x < tx))) {
                                Some(oc.ensured_tile(l, x, y))
                            } else {
                                oc.tile(l, x, y)
                            });
                        }
                    }
                } else {
                    proof {
                        assert forall|r: int, c: int|
                            0 <= r < ny && 0 <= c < nx implies #[trigger] self.tiles@[r * nx + c] == if in_span(
                                span,
                                nx,
                                ny,
                                c,
                                r,
                            ) && (r < ty || (r == ty && c < tx + 1)) {
                                dirtied(o[r * nx + c])
                            } else {
                                o[r * nx + c]
                            } by {}
                        assert forall|l: int, x: i32, y: i32|
                            #[trigger] canvas@.tile(l, x, y) == if l == a && 0 <= a < oc.layers.len() && (in_span(
                                span,
                                nx,
                                ny,
                                x as int,
                                y as int,
                            ) && (y < ty || (y == ty && x < tx + 1))) {
                                Some(oc.ensured_tile(l, x, y))
                            } else {
                                oc.tile(l, x, y)
                            } by {}
                    }
                }
                tx = tx + 1;
            }
            ty = ty + 1;
        }
    }

    /// Mark for refresh every tile of the grid where layer `layer_idx` of
    /// `canvas` has a pixel buffer.
    pub fn mark_layer_data_dirty(&mut self, canvas: &Canvas, layer_idx: usize)
        requires
            old(self).wf(),
            canvas.wf(),
        ensures
            final(self).wf(),
            final(self).tiles_x == old(self).tiles_x,
            final(self).tiles_y == old(self).tiles_y,
            forall|ty: int, tx: int|
                0 <= ty < old(self).tiles_y && 0 <= tx < old(self).tiles_x ==> #[trigger] final(self).tiles@[ty
                    * old(self).tiles_x + tx] == if tile_data(canvas@.tile(layer_idx as int, tx as i32, ty as i32)) is Some {
                    dirtied(old(self).tiles@[ty * old(self).tiles_x + tx])
                } else {
                    old(self).tiles@[ty * old(self).tiles_x + tx]
                },
    {
        let ghost o = old(self).tiles@;
        let ghost nx = self.tiles_x as nat;
        let ghost ny = self.tiles_y as nat;
        let tiles_x = self.tiles_x;
        let tiles_y = self.tiles_y;
        let mut ty: usize = 0;
        while ty < tiles_y
            invariant
                self.wf(),
                canvas.wf(),
                self.tiles_x == nx,
                self.tiles_y == ny,
                tiles_x == nx,
                tiles_y == ny,
                o.len() == nx * ny,
                ty <= ny,
                forall|r: int, c: int|
                    0 <= r < ny && 0 <= c < nx ==> #[trigger] self.tiles@[r * nx + c] == if r < ty && tile_data(
                        canvas@.tile(layer_idx as int, c as i32, r as i32),
                    ) is Some {
                        dirtied(o[r * nx + c])
                    } else {
                        o[r * nx + c]
                    },
            decreases ny - ty,
        {
            let mut tx: usize = 0;
            while tx < tiles_x
                invariant
                    self.wf(),
                    canvas.wf(),
                    self.tiles_x == nx,
                    self.tiles_y == ny,
                    tiles_x == nx,
                    tiles_y == ny,
                    o.len() == nx * ny,
                    ty < ny,
                    tx <= nx,
                    forall|r: int, c: int|
                        0 <= r < ny && 0 <= c < nx ==> #[trigger] self.tiles@[r * nx + c] == if (r < ty || (r == ty
                            && c < tx)) && tile_data(canvas@.tile(layer_idx as int, c as i32, r as i32)) is Some {
                            dirtied(o[r * nx + c])
                        } else {
                            o[r * nx + c]
                        },
                decreases nx - tx,
            {
                let ghost before = self.tiles@;
                if canvas.layer_tile_has_data(layer_idx, tx as i32, ty as i32) {
                    let _ = self.mark_dirty(tx, ty);
                    proof {
                        assert forall|r: int, c: int|
                            0 <= r < ny && 0 <= c < nx implies #[trigger] self.tiles@[r * nx + c] == if (r < ty || (r
                                == ty && c < tx + 1)) && tile_data(canvas@.tile(layer_idx as int, c as i32, r as i32))
                                is Some {
                                dirtied(o[r * nx + c])
                            } else {
                                o[r * nx + c]
                            } by {
                            lemma_grid_index(nx, ny, r, c, ty as int, tx as int);
                            let k = ty * nx + tx;
                            lemma_grid_index(nx, ny, ty as int, tx as int, ty as int, tx as int);
                            assert(self.tiles@ == before.update(k, dirtied(before[k])));
                            assert(before[r * nx + c] == if (r < ty || (r == ty && c < tx)) && tile_data(
                                canvas@.tile(layer_idx as int, c as i32, r as i32),
                            ) is Some {
                                dirtied(o[r * nx + c])
                            } else {
                                o[r * nx + c]
                            });
                        }
                    }
                } else {
                    proof {
                        assert forall|r: int, c: int|
                            0 <= r < ny && 0 <= c < nx implies #[trigger] self.tiles@[r * nx + c] == if (r < ty || (r
                                == ty && c < tx + 1)) && tile_data(canvas@.tile(layer_idx as int, c as i32, r as i32))
                                is Some {
                                dirtied(o[r * nx + c])
                            } else {
                                o[r * nx + c]
                            } by {}
                    }
                }
                tx = tx + 1;
            }
            ty = ty + 1;
        }
    }

    /// The tiles whose texture must be refreshed, in grid order, with the
    /// canvas rectangle each shows and the size of its image when sampled
    /// every `lod_step` pixels (brought into 1 ..= `ts`), for a `width` by
    /// `height` canvas of `ts`-pixel tiles.
    pub fn dirty_uploads(&self, width: usize, height: usize, ts: usize, lod_step: usize) -> (r: Vec<TileUpload>)
        requires
            self.on_canvas(width as nat, height as nat, ts as nat),
            ts > 0,
        ensures
            forall|k: int|
                0 <= k < r@.len() ==> {
                    let u = #[trigger] r@[k];
                    &&& u.idx < self.tiles@.len()
                    &&& self.tiles@[u.idx as int].dirty
                    &&& u == upload_of(
                        self.tiles@[u.idx as int],
                        u.idx as nat,
                        width as nat,
                        height as nat,
                        ts as nat,
                        clamped_step(lod_step as nat, ts as nat),
                    )
                },
            forall|k1: int, k2: int| 0 <= k1 < k2 < r@.len() ==> r@[k1].idx < r@[k2].idx,
            forall|i: int|
                0 <= i < self.tiles@.len() && (#[trigger] self.tiles@[i]).dirty ==> exists|k: int|
                    0 <= k < r@.len() && #[trigger] r@[k].idx == i,
    {
        let step = if lod_step < 1 {
            1
        } else if lod_step > ts {
            ts
        } else {
            lod_step
        };
        let n = self.tiles.len();
        let mut out: Vec<TileUpload> = Vec::new();
        let mut i: usize = 0;
        while i < n
            invariant
                n == self.tiles@.len(),
                i <= n,
                ts > 0,
                step == clamped_step(lod_step as nat, ts as nat),
                1 <= step <= ts,
                self.on_canvas(width as nat, height as nat, ts as nat),
                forall|k: int|
                    0 <= k < out@.len() ==> {
                        let u = #[trigger] out@[k];
                        &&& u.idx < i
                        &&& self.tiles@[u.idx as int].dirty
                        &&& u == upload_of(
                            self.tiles@[u.idx as int],
                            u.idx as nat,
                            width as nat,
                            height as nat,
                            ts as nat,
                            step as nat,
                        )
                    },
                forall|k1: int, k2: int| 0 <= k1 < k2 < out@.len() ==> out@[k1].idx < out@[k2].idx,
                forall|j: int|
                    0 <= j < i && (#[trigger] self.tiles@[j]).dirty ==> exists|k: int|
                        0 <= k < out@.len() && #[trigger] out@[k].idx == j,
            decreases n - i,
        {
            let t = self.tiles[i];
            if t.dirty {
                proof {
                    assert(t.tx * ts < width && t.ty * ts < height);
                }
                let x = t.tx * ts;
                let y = t.ty * ts;
                let w = if ts < width - x {
                    ts
                } else {
                    width - x
                };
                let h = if ts < height - y {
                    ts
                } else {
                    height - y
                };
                proof {
                    lemma_round_up(w as int, step as int);
                    lemma_round_up(h as int, step as int);
                }
                let out_w = (w - 1) / step + 1;
                let out_h = (h - 1) / step + 1;
                let ghost before = out@;
                out.push(TileUpload { idx: i, x, y, w, h, out_w, out_h });
                proof {
                    assert forall|j: int|
                        0 <= j < i + 1 && (#[trigger] self.tiles@[j]).dirty implies exists|k: int|
                        0 <= k < out@.len() && #[trigger] out@[k].idx == j by {
                        if j == i {
                            assert(out@[before.len() as int].idx == j);
                        } else {
                            let k = choose|k: int| 0 <= k < before.len() && #[trigger] before[k].idx == j;
                            assert(out@[k] == before[k]);
                        }
                    }
                    assert forall|k: int| 0 <= k < out@.len() implies {
                        let u = #[trigger] out@[k];
                        &&& u.idx < i + 1
                        &&& self.tiles@[u.idx as int].dirty
                        &&& u == upload_of(
                            self.tiles@[u.idx as int],
                            u.idx as nat,
                            width as nat,
                            height as nat,
                            ts as nat,
                            step as nat,
                        )
                    } by {
                        if k < before.len() {
                            assert(out@[k] == before[k]);
                        }
                    }
                }
            } else {
                proof {
                    assert forall|j: int|
                        0 <= j < i + 1 && (#[trigger] self.tiles@[j]).dirty implies exists|k: int|
                        0 <= k < out@.len() && #[trigger] out@[k].idx == j by {
                        let k = choose|k: int| 0 <= k < out@.len() && #[trigger] out@[k].idx == j;
                        assert(out@[k].idx == j);
                    }
                }
            }
            i = i + 1;
        }
        out
    }

    /// Record that the texture of entry `idx` now holds an image of
    /// `img_w` by `img_h` pixels; nothing happens outside the grid.
    pub fn finish_upload(&mut self, idx: usize, img_w: usize, img_h: usize)
        requires
            old(self).wf(),
        ensures
            final(self).wf(),
            final(self).tiles_x == old(self).tiles_x,
            final(self).tiles_y == old(self).tiles_y,
            final(self).tiles@ == if idx < old(self).tiles@.len() {
                old(self).tiles@.update(
                    idx as int,
                    CanvasTile { pixel_w: img_w, pixel_h: img_h, dirty: false, ..old(self).tiles@[idx as int] },
                )
            } else {
                old(self).tiles@
            },
    {
        if idx < self.tiles.len() {
            let mut t = self.tiles[idx];
            t.pixel_w = img_w;
            t.pixel_h = img_h;
            t.dirty = false;
            self.tiles.set(idx, t);
        }
    }
}

proof fn lemma_round_up(w: int, step: int)
    requires
        w >= 1,
        step >= 1,
    ensures
        (w - 1) / step + 1 == (w + step - 1) / step,
{
    vstd::arithmetic::div_mod::lemma_div_plus_one(w - 1, step);
    assert(step + (w - 1) == w + step - 1);
}

/// Positions (r, c) and (ty, tx) of a grid of `nx` columns share an index
/// only when they are the same position.
proof fn lemma_grid_index(nx: nat, ny: nat, r: int, c: int, ty: int, tx: int)
    requires
        0 <= r < ny,
        0 <= c < nx,
        0 <= ty < ny,
        0 <= tx < nx,
    ensures
        (r * nx + c == ty * nx + tx) <==> (r == ty && c == tx),
        0 <= r * nx + c < nx * ny,
{
    assert(0 <= r * nx + c < nx * ny) by (nonlinear_arith)
        requires
            0 <= r < ny,
            0 <= c < nx,
    ;
    if r * nx + c == ty * nx + tx && !(r == ty && c == tx) {
        if r == ty {
            assert(c == tx);
        } else if r < ty {
            assert(r * nx + c < ty * nx + tx) by (nonlinear_arith)
                requires
                    r < ty,
                    0 <= c < nx,
                    0 <= tx,
            ;
        } else {
            assert(r * nx + c > ty * nx + tx) by (nonlinear_arith)
                requires
                    r > ty,
                    0 <= tx < nx,
                    0 <= c,
            ;
        }
    }
}

} // verus!
