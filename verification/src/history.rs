use vstd::prelude::*;
use crate::pixel::Pixel;
use crate::canvas::{Canvas, CanvasView, TileView, tile_ok, all_transparent};
use crate::region::{
    region_fits, extract_region, write_region, fits_region, region_pos, in_rows, rows_offset,
    lemma_pos_in_rows, lemma_rows_offset, lemma_write_rows_closed,
};

verus! {

/// Snapshot of a rectangular region of one tile of one layer.
pub struct TileSnapshot {
    pub tx: i32,
    pub ty: i32,
    pub layer_idx: usize,
    pub x0: usize,
    pub y0: usize,
    pub width: usize,
    pub height: usize,
    pub data: Vec<Pixel>,
}

/// What a snapshot holds.
pub struct SnapshotView {
    pub tx: i32,
    pub ty: i32,
    pub layer_idx: nat,
    pub x0: nat,
    pub y0: nat,
    pub width: nat,
    pub height: nat,
    pub data: Seq<Pixel>,
}

impl View for TileSnapshot {
    type V = SnapshotView;

    open spec fn view(&self) -> SnapshotView {
        SnapshotView {
            tx: self.tx,
            ty: self.ty,
            layer_idx: self.layer_idx as nat,
            x0: self.x0 as nat,
            y0: self.y0 as nat,
            width: self.width as nat,
            height: self.height as nat,
            data: self.data@,
        }
    }
}

/// Everything captured during a single user operation: tile snapshots, and
/// optionally the selection `S` and the transform `T` in effect before it.
pub struct UndoAction<S, T> {
    pub tiles: Vec<TileSnapshot>,
    pub selection: Option<S>,
    pub transform: Option<T>,
}

/// What an action holds.
pub struct ActionView<S, T> {
    pub tiles: Seq<SnapshotView>,
    pub selection: Option<S>,
    pub transform: Option<T>,
}

impl<S, T> View for UndoAction<S, T> {
    type V = ActionView<S, T>;

    open spec fn view(&self) -> ActionView<S, T> {
        ActionView {
            tiles: self.tiles@.map_values(|s: TileSnapshot| s@),
            selection: self.selection,
            transform: self.transform,
        }
    }
}

/// The two stacks of a history, most recent action last.
pub struct HistoryView<S, T> {
    pub undo: Seq<ActionView<S, T>>,
    pub redo: Seq<ActionView<S, T>>,
}

/// Where a snapshot is applied: its layer and tile coordinates.
pub open spec fn snapshot_key(s: SnapshotView) -> (int, i32, i32) {
    (s.layer_idx as int, s.tx, s.ty)
}

/// A snapshot can be swapped into the canvas without going out of bounds
/// (snapshots of missing layers are skipped and need nothing).
pub open spec fn snapshot_fits(c: CanvasView, s: SnapshotView) -> bool {
    s.layer_idx < c.layers.len() ==> region_fits(c.tile_size, s.x0, s.y0, s.width, s.height, s.data.len())
}

pub open spec fn action_fits<S, T>(c: CanvasView, a: ActionView<S, T>) -> bool {
    forall|i: int| 0 <= i < a.tiles.len() ==> snapshot_fits(c, #[trigger] a.tiles[i])
}

/// Swapping one snapshot with the canvas: the tile gets a buffer if it had
/// none, the snapshot's rows are written into its rectangle, the tile is
/// marked empty exactly when all its pixels are then transparent, and the
/// snapshot keeps the rectangle's previous pixels.
pub open spec fn swap_step(c: CanvasView, s: SnapshotView) -> (CanvasView, SnapshotView) {
    if s.layer_idx < c.layers.len() {
        let l = s.layer_idx as int;
        let p = c.pixels(l, s.tx, s.ty);
        (
            c.with_tile(
                l,
                s.tx,
                s.ty,
                TileView {
                    data: Some(write_region(p, c.tile_size, s.x0, s.y0, s.width, s.height, s.data)),
                    is_empty: all_transparent(write_region(p, c.tile_size, s.x0, s.y0, s.width, s.height, s.data)),
                },
            ),
            SnapshotView { data: extract_region(p, c.tile_size, s.x0, s.y0, s.width, s.height), ..s },
        )
    } else {
        (c, s)
    }
}

/// Swapping all snapshots in order.
pub open spec fn swap_all(c: CanvasView, ss: Seq<SnapshotView>) -> (CanvasView, Seq<SnapshotView>)
    decreases ss.len(),
{
    if ss.len() == 0 {
        (c, ss)
    } else {
        let prev = swap_all(c, ss.drop_last());
        let step = swap_step(prev.0, ss.last());
        (step.0, prev.1.push(step.1))
    }
}

/// Tile coordinates of the snapshots whose layer exists, in order.
pub open spec fn touched(layer_count: nat, ss: Seq<SnapshotView>) -> Seq<(i32, i32)>
    decreases ss.len(),
{
    if ss.len() == 0 {
        Seq::empty()
    } else {
        let prev = touched(layer_count, ss.drop_last());
        if ss.last().layer_idx < layer_count {
            prev.push((ss.last().tx, ss.last().ty))
        } else {
            prev
        }
    }
}

/// Undo and redo report one tile per snapshot of an existing layer, in the
/// order of the snapshots and whatever tiles the earlier snapshots were on:
/// the tile coordinates of the snapshots whose layer exists; with every
/// layer existing, entry `i` is the tile of snapshot `i`.
pub proof fn lemma_touched_lists_snapshots(n: nat, ss: Seq<SnapshotView>)
    ensures
        touched(n, ss) == ss.filter(|s: SnapshotView| s.layer_idx < n).map_values(
            |s: SnapshotView| (s.tx, s.ty),
        ),
        (forall|i: int| 0 <= i < ss.len() ==> (#[trigger] ss[i]).layer_idx < n) ==> touched(n, ss).len() == ss.len()
            && forall|i: int| 0 <= i < ss.len() ==> #[trigger] touched(n, ss)[i] == (ss[i].tx, ss[i].ty),
    decreases ss.len(),
{
    reveal(Seq::filter);
    if ss.len() > 0 {
        let front = ss.drop_last();
        lemma_touched_lists_snapshots(n, front);
        let pred = |s: SnapshotView| s.layer_idx < n;
        let proj = |s: SnapshotView| (s.tx, s.ty);
        let fl = front.filter(pred);
        if pred(ss.last()) {
            assert(fl.push(ss.last()).map_values(proj) =~= fl.map_values(proj).push(proj(ss.last())));
        }
        assert(touched(n, ss) =~= ss.filter(pred).map_values(proj));
        if forall|i: int| 0 <= i < ss.len() ==> (#[trigger] ss[i]).layer_idx < n {
            assert forall|i: int| 0 <= i < front.len() implies (#[trigger] front[i]).layer_idx < n by {
                assert(front[i] == ss[i]);
            }
            assert(ss[ss.len() - 1].layer_idx < n);
            assert forall|i: int| 0 <= i < ss.len() implies #[trigger] touched(n, ss)[i] == (ss[i].tx, ss[i].ty) by {
                if i < front.len() {
                    assert(front[i] == ss[i]);
                    assert(touched(n, front)[i] == (front[i].tx, front[i].ty));
                }
            }
        }
    }
}

/// Exchanging a stored value with the current one when one is stored.
pub open spec fn swap_stored<X>(stored: Option<X>, current: X) -> (Option<X>, X) {
    match stored {
        Some(x) => (Some(current), x),
        None => (None, current),
    }
}

/// Exchanging a stored value with the current one when both exist.
pub open spec fn swap_if_both<X>(stored: Option<X>, current: Option<X>) -> (Option<X>, Option<X>) {
    match stored {
        Some(x) => match current {
            Some(y) => (Some(y), Some(x)),
            None => (stored, current),
        },
        None => (stored, current),
    }
}

/// The action, canvas, selection and transform after swapping an action.
pub open spec fn swap_action<S, T>(c: CanvasView, a: ActionView<S, T>, sel: S, tr: Option<T>) -> (
    ActionView<S, T>,
    CanvasView,
    S,
    Option<T>,
) {
    let sw = swap_all(c, a.tiles);
    let ss = swap_stored(a.selection, sel);
    let st = swap_if_both(a.transform, tr);
    (ActionView { tiles: sw.1, selection: ss.0, transform: st.0 }, sw.0, ss.1, st.1)
}

/// Everything that undo works on: the history, the canvas, the current
/// selection and the current transform (present when the transform tool is
/// active).
pub struct EditState<S, T> {
    pub history: HistoryView<S, T>,
    pub canvas: CanvasView,
    pub selection: S,
    pub transform: Option<T>,
}

/// The state after an undo: the latest action is swapped with the canvas
/// and moved to the redo stack; with nothing to undo, nothing changes.
pub open spec fn undo_effect<S, T>(e: EditState<S, T>) -> EditState<S, T> {
    if e.history.undo.len() == 0 {
        e
    } else {
        let r = swap_action(e.canvas, e.history.undo.last(), e.selection, e.transform);
        EditState {
            history: HistoryView { undo: e.history.undo.drop_last(), redo: e.history.redo.push(r.0) },
            canvas: r.1,
            selection: r.2,
            transform: r.3,
        }
    }
}

/// The state after a redo: the latest undone action is swapped with the
/// canvas and moved back to the undo stack; with nothing to redo, nothing
/// changes.
pub open spec fn redo_effect<S, T>(e: EditState<S, T>) -> EditState<S, T> {
    if e.history.redo.len() == 0 {
        e
    } else {
        let r = swap_action(e.canvas, e.history.redo.last(), e.selection, e.transform);
        EditState {
            history: HistoryView { undo: e.history.undo.push(r.0), redo: e.history.redo.drop_last() },
            canvas: r.1,
            selection: r.2,
            transform: r.3,
        }
    }
}

/// Stack-based undo/redo manager that swaps tile buffers in place.
pub struct History<S, T> {
    undo_stack: Vec<UndoAction<S, T>>,
    redo_stack: Vec<UndoAction<S, T>>,
}

impl<S, T> View for History<S, T> {
    type V = HistoryView<S, T>;

    closed spec fn view(&self) -> HistoryView<S, T> {
        HistoryView {
            undo: self.undo_stack@.map_values(|a: UndoAction<S, T>| a@),
            redo: self.redo_stack@.map_values(|a: UndoAction<S, T>| a@),
        }
    }
}

impl<S, T> History<S, T> {
    /// Create an empty history with no recorded actions.
    pub fn new() -> (h: Self)
        ensures
            h@.undo == Seq::<ActionView<S, T>>::empty(),
            h@.redo == Seq::<ActionView<S, T>>::empty(),
    {
        let h = History { undo_stack: Vec::new(), redo_stack: Vec::new() };
        proof {
            assert(h@.undo =~= Seq::<ActionView<S, T>>::empty());
            assert(h@.redo =~= Seq::<ActionView<S, T>>::empty());
        }
        h
    }

    /// Push a new action onto the undo stack and clear redo.
    pub fn push_action(&mut self, action: UndoAction<S, T>)
        ensures
            final(self)@.undo == old(self)@.undo.push(action@),
            final(self)@.redo == Seq::<ActionView<S, T>>::empty(),
    {
        let ghost a = action@;
        self.undo_stack.push(action);
        self.redo_stack.clear();
        proof {
            assert(self@.undo =~= old(self)@.undo.push(a));
            assert(self@.redo =~= Seq::<ActionView<S, T>>::empty());
        }
    }

    /// Record the action of a finished stroke: pushed as by `push_action`
    /// when it holds tile snapshots; dropped, changing nothing, when the
    /// stroke touched no tile.
    pub fn commit_stroke(&mut self, action: UndoAction<S, T>) -> (pushed: bool)
        ensures
            pushed == (action@.tiles.len() > 0),
            pushed ==> final(self)@.undo == old(self)@.undo.push(action@),
            pushed ==> final(self)@.redo == Seq::<ActionView<S, T>>::empty(),
            !pushed ==> final(self)@ == old(self)@,
    {
        if action.tiles.len() > 0 {
            self.push_action(action);
            true
        } else {
            false
        }
    }

    /// Whether the action that undo (or, with `redo`, redo) would apply next
    /// fits `canvas`, as `undo` and `redo` require; true when there is none.
    pub fn next_fits(&self, canvas: &Canvas, redo: bool) -> (r: bool)
        ensures
            r == if redo {
                self@.redo.len() > 0 ==> action_fits(canvas@, self@.redo.last())
            } else {
                self@.undo.len() > 0 ==> action_fits(canvas@, self@.undo.last())
            },
    {
        let stack = if redo { &self.redo_stack } else { &self.undo_stack };
        let n = stack.len();
        if n == 0 {
            return true;
        }
        let action = &stack[n - 1];
        proof {
            if redo {
                assert(self@.redo.last() == action@);
            } else {
                assert(self@.undo.last() == action@);
            }
        }
        let layers = canvas.layer_count();
        let ts = canvas.tile_size();
        let mut i: usize = 0;
        while i < action.tiles.len()
            invariant
                i <= action.tiles@.len(),
                layers == canvas@.layers.len(),
                ts == canvas@.tile_size,
                redo ==> self@.redo.len() > 0 && self@.redo.last() == action@,
                !redo ==> self@.undo.len() > 0 && self@.undo.last() == action@,
                forall|j: int| 0 <= j < i ==> snapshot_fits(canvas@, #[trigger] action@.tiles[j]),
            decreases action.tiles@.len() - i,
        {
            let s = &action.tiles[i];
            proof {
                assert(action@.tiles[i as int] == s@);
            }
            if s.layer_idx < layers && !fits_region(ts, s.x0, s.y0, s.width, s.height, s.data.len()) {
                proof {
                    assert(!snapshot_fits(canvas@, action@.tiles[i as int]));
                    assert(!action_fits(canvas@, action@));
                }
                return false;
            }
            i = i + 1;
        }
        true
    }

    /// Undo the latest action, returning the coordinates of the tiles that
    /// changed.
    pub fn undo(
        &mut self,
        canvas: &mut Canvas,
        selection: &mut S,
        transform: &mut Option<T>,
    ) -> (affected: Vec<(i32, i32)>)
        requires
            old(canvas).wf(),
            old(self)@.undo.len() > 0 ==> action_fits(old(canvas)@, old(self)@.undo.last()),
        ensures
            final(canvas).wf(),
            (EditState {
                history: final(self)@,
                canvas: final(canvas)@,
                selection: *final(selection),
                transform: *final(transform),
            }) == undo_effect(
                EditState {
                    history: old(self)@,
                    canvas: old(canvas)@,
                    selection: *old(selection),
                    transform: *old(transform),
                },
            ),
            affected@ == if old(self)@.undo.len() > 0 {
                touched(old(canvas)@.layers.len(), old(self)@.undo.last().tiles)
            } else {
                Seq::<(i32, i32)>::empty()
            },
    {
        match self.undo_stack.pop() {
            Some(action) => {
                let mut action = action;
                proof {
                    assert(old(self).undo_stack@.last()@ == old(self)@.undo.last());
                }
                let tiles = swap_state(canvas, &mut action, selection, transform);
                let ghost a = action@;
                self.redo_stack.push(action);
                proof {
                    assert(self@.undo =~= old(self)@.undo.drop_last());
                    assert(self@.redo =~= old(self)@.redo.push(a));
                }
                tiles
            },
            None => {
                proof {
                    assert(old(self)@.undo.len() == 0);
                }
                Vec::new()
            },
        }
    }

    /// Redo the previously undone action, returning the coordinates of the
    /// tiles that changed.
    pub fn redo(
        &mut self,
        canvas: &mut Canvas,
        selection: &mut S,
        transform: &mut Option<T>,
    ) -> (affected: Vec<(i32, i32)>)
        requires
            old(canvas).wf(),
            old(self)@.redo.len() > 0 ==> action_fits(old(canvas)@, old(self)@.redo.last()),
        ensures
            final(canvas).wf(),
            (EditState {
                history: final(self)@,
                canvas: final(canvas)@,
                selection: *final(selection),
                transform: *final(transform),
            }) == redo_effect(
                EditState {
                    history: old(self)@,
                    canvas: old(canvas)@,
                    selection: *old(selection),
                    transform: *old(transform),
                },
            ),
            affected@ == if old(self)@.redo.len() > 0 {
                touched(old(canvas)@.layers.len(), old(self)@.redo.last().tiles)
            } else {
                Seq::<(i32, i32)>::empty()
            },
    {
        match self.redo_stack.pop() {
            Some(action) => {
                let mut action = action;
                proof {
                    assert(old(self).redo_stack@.last()@ == old(self)@.redo.last());
                }
                let tiles = swap_state(canvas, &mut action, selection, transform);
                let ghost a = action@;
                self.undo_stack.push(action);
                proof {
                    assert(self@.redo =~= old(self)@.redo.drop_last());
                    assert(self@.undo =~= old(self)@.undo.push(a));
                }
                tiles
            },
            None => {
                proof {
                    assert(old(self)@.redo.len() == 0);
                }
                Vec::new()
            },
        }
    }
}

/// Swap stored selection, transform and tile data with the current ones,
/// producing the list of updated tiles.
fn swap_state<S, T>(
    canvas: &mut Canvas,
    action: &mut UndoAction<S, T>,
    selection: &mut S,
    transform: &mut Option<T>,
) -> (affected: Vec<(i32, i32)>)
    requires
        old(canvas).wf(),
        action_fits(old(canvas)@, old(action)@),
    ensures
        final(canvas).wf(),
        (final(action)@, final(canvas)@, *final(selection), *final(transform)) == swap_action(
            old(canvas)@,
            old(action)@,
            *old(selection),
            *old(transform),
        ),
        affected@ == touched(old(canvas)@.layers.len(), old(action)@.tiles),
{
    if action.selection.is_some() {
        let mut stored = action.selection.take().unwrap();
        std::mem::swap(&mut stored, selection);
        action.selection = Some(stored);
    }
    if action.transform.is_some() && transform.is_some() {
        let mut stored = action.transform.take().unwrap();
        let mut current = transform.take().unwrap();
        std::mem::swap(&mut stored, &mut current);
        action.transform = Some(stored);
        *transform = Some(current);
    }
    let mut affected: Vec<(i32, i32)> = Vec::new();
    let n = action.tiles.len();
    let ghost c0 = canvas@;
    let ghost ss0 = old(action)@.tiles;
    let ghost sel_after = action.selection;
    let ghost tr_after = action.transform;
    proof {
        assert(action@.tiles == ss0);
        assert(swap_all(c0, ss0.subrange(0, 0)) == (c0, ss0.subrange(0, 0)));
        assert(action@.tiles.subrange(0, 0) =~= ss0.subrange(0, 0));
        assert(touched(c0.layers.len(), ss0.subrange(0, 0)) =~= affected@);
    }
    let mut i: usize = 0;
    while i < n
        invariant
            n == action.tiles@.len(),
            n == ss0.len(),
            i <= n,
            canvas.wf(),
            action_fits(c0, old(action)@),
            ss0 == old(action)@.tiles,
            (canvas@, action@.tiles.subrange(0, i as int)) == swap_all(c0, ss0.subrange(0, i as int)),
            forall|j: int| i <= j < n ==> (#[trigger] action@.tiles[j]) == ss0[j],
            affected@ == touched(c0.layers.len(), ss0.subrange(0, i as int)),
            canvas@.layers.len() == c0.layers.len(),
            canvas@.tile_size == c0.tile_size,
            action.selection == sel_after,
            action.transform == tr_after,
        decreases n - i,
    {
        let layer_idx = action.tiles[i].layer_idx;
        let tx = action.tiles[i].tx;
        let ty = action.tiles[i].ty;
        let x0 = action.tiles[i].x0;
        let y0 = action.tiles[i].y0;
        let w = action.tiles[i].width;
        let h = action.tiles[i].height;
        let ghost cb = canvas@;
        let ghost before = action@.tiles;
        proof {
            assert(action@.tiles[i as int] == ss0[i as int]);
            assert(snapshot_fits(c0, ss0[i as int]));
        }
        let done = canvas.swap_tile_region(layer_idx, tx, ty, x0, y0, w, h, &mut action.tiles[i].data);
        if done {
            affected.push((tx, ty));
        }
        proof {
            let si = ss0[i as int];
            let st = swap_step(cb, si);
            assert(canvas@ == st.0);
            assert(action@.tiles[i as int] == st.1);
            assert forall|j: int| 0 <= j < n && j != i implies #[trigger] action@.tiles[j] == before[j] by {}
            assert(ss0.subrange(0, i + 1).drop_last() =~= ss0.subrange(0, i as int));
            assert(ss0.subrange(0, i + 1).last() == si);
            assert(action@.tiles.subrange(0, i + 1) =~= before.subrange(0, i as int).push(st.1));
            assert(affected@ =~= touched(c0.layers.len(), ss0.subrange(0, i + 1)));
        }
        i = i + 1;
    }
    proof {
        assert(ss0.subrange(0, n as int) =~= ss0);
        assert(action@.tiles.subrange(0, n as int) =~= action@.tiles);
    }
    affected
}

/// A snapshot that swapping can take back: on an existing layer its rows
/// are no wider than a tile, its rectangle fits the tile buffer and its
/// buffer holds exactly the rectangle's pixels.
pub open spec fn restorable(c: CanvasView, s: SnapshotView) -> bool {
    s.layer_idx < c.layers.len() ==> {
        &&& s.width <= c.tile_size
        &&& region_fits(c.tile_size, s.x0, s.y0, s.width, s.height, s.data.len())
        &&& s.data.len() == s.width * s.height
    }
}

/// Snapshot `s`, of an existing layer, covers buffer position `j` of the
/// tile `k`.
pub open spec fn hits(c: CanvasView, s: SnapshotView, k: (int, i32, i32), j: int) -> bool {
    &&& s.layer_idx < c.layers.len()
    &&& snapshot_key(s) == k
    &&& in_rows(c.tile_size, s.x0, s.y0, s.width, s.height, j)
}

/// No pixel of any tile is covered by two snapshots.
pub open spec fn apart(c: CanvasView, ss: Seq<SnapshotView>) -> bool {
    forall|a: int, b: int, k: (int, i32, i32), j: int|
        0 <= a < ss.len() && 0 <= b < ss.len() && a != b && #[trigger] hits(c, ss[a], k, j) ==> !#[trigger] hits(
            c,
            ss[b],
            k,
            j,
        )
}

/// An action whose swap can be undone by swapping again: each snapshot is
/// restorable and no two snapshots cover the same pixel (several snapshots
/// may share a tile).
pub open spec fn reversible<S, T>(c: CanvasView, a: ActionView<S, T>) -> bool {
    &&& forall|i: int| 0 <= i < a.tiles.len() ==> restorable(c, #[trigger] a.tiles[i])
    &&& apart(c, a.tiles)
}

/// Two canvases with the same geometry, layers and active layer that show
/// the same pixels in every tile of every layer.
pub open spec fn same_pixels(a: CanvasView, b: CanvasView) -> bool {
    &&& Canvas::same_except_tiles(a, b)
    &&& forall|l: int, tx: i32, ty: i32| #[trigger] a.pixels(l, tx, ty) == b.pixels(l, tx, ty)
}

/// Every tile of a well-formed canvas shows a full tile of pixels.
proof fn lemma_pixels_len(c: CanvasView, l: int, tx: i32, ty: i32)
    requires
        c.wf(),
    ensures
        c.pixels(l, tx, ty).len() == c.tile_len(),
{
    if c.tiles.dom().contains((l, tx, ty)) {
        assert(tile_ok(c.tiles[(l, tx, ty)], c.tile_len()));
    }
}

/// Swapping a restorable snapshot keeps the canvas well formed and its
/// geometry and layers.
proof fn lemma_step_wf(c: CanvasView, s: SnapshotView)
    requires
        c.wf(),
        restorable(c, s),
    ensures
        swap_step(c, s).0.wf(),
        Canvas::same_except_tiles(swap_step(c, s).0, c),
{
    if s.layer_idx < c.layers.len() {
        let l = s.layer_idx as int;
        let p = c.pixels(l, s.tx, s.ty);
        lemma_pixels_len(c, l, s.tx, s.ty);
        lemma_write_rows_closed(p, c.tile_size, s.x0, s.y0, s.width, s.height, s.data);
        let r = swap_step(c, s).0;
        assert forall|k: (int, i32, i32)| #[trigger] r.tiles.dom().contains(k) implies 0 <= k.0 < r.layers.len()
            && tile_ok(r.tiles[k], r.tile_len()) by {
            if k != (l, s.tx, s.ty) {
                assert(c.tiles.dom().contains(k));
            }
        }
    }
}

/// Swapping all snapshots of an action whose snapshots are restorable and
/// cover no pixel twice: each snapshot takes the pixels the canvas had
/// under it, each covered pixel gets the pixel of the snapshot covering
/// it, and every other pixel stays.
proof fn lemma_swap_all_rows(c: CanvasView, ss: Seq<SnapshotView>)
    requires
        c.wf(),
        forall|i: int| 0 <= i < ss.len() ==> restorable(c, #[trigger] ss[i]),
        apart(c, ss),
    ensures
        ({
            let r = swap_all(c, ss);
            &&& Canvas::same_except_tiles(r.0, c)
            &&& r.0.wf()
            &&& r.1.len() == ss.len()
            &&& forall|i: int| 0 <= i < ss.len() ==> #[trigger] r.1[i] == swap_step(c, ss[i]).1
            &&& forall|l: int, tx: i32, ty: i32, j: int|
                0 <= j < c.tile_len() && (forall|i: int| 0 <= i < ss.len() ==> !hits(c, ss[i], (l, tx, ty), j))
                    ==> #[trigger] r.0.pixels(l, tx, ty)[j] == c.pixels(l, tx, ty)[j]
            &&& forall|i: int, l: int, tx: i32, ty: i32, j: int|
                0 <= i < ss.len() && 0 <= j < c.tile_len() && #[trigger] hits(c, ss[i], (l, tx, ty), j)
                    ==> r.0.pixels(l, tx, ty)[j] == ss[i].data[rows_offset(
                    c.tile_size,
                    ss[i].x0,
                    ss[i].y0,
                    ss[i].width,
                    j,
                )]
        }),
    decreases ss.len(),
{
    if ss.len() > 0 {
        let n = ss.len() - 1;
        let front = ss.drop_last();
        let last = ss.last();
        assert(ss[n] == last);
        assert forall|i: int| 0 <= i < front.len() implies restorable(c, #[trigger] front[i]) by {
            assert(front[i] == ss[i]);
        }
        assert forall|a: int, b: int, k: (int, i32, i32), j: int|
            0 <= a < front.len() && 0 <= b < front.len() && a != b && #[trigger] hits(c, front[a], k, j) implies !#[trigger] hits(
            c,
            front[b],
            k,
            j,
        ) by {
            assert(front[a] == ss[a]);
            assert(front[b] == ss[b]);
        }
        lemma_swap_all_rows(c, front);
        let r1 = swap_all(c, front);
        let c1 = r1.0;
        lemma_step_wf(c1, last);
        let st = swap_step(c1, last);
        let r = swap_all(c, ss);
        assert(r.0 == st.0);
        assert(r.1 == r1.1.push(st.1));
        let ts = c.tile_size;
        let kl = snapshot_key(last);
        if last.layer_idx < c.layers.len() {
            assert(restorable(c, ss[n]));
            let p1 = c1.pixels(kl.0, kl.1, kl.2);
            let p0 = c.pixels(kl.0, kl.1, kl.2);
            lemma_pixels_len(c1, kl.0, kl.1, kl.2);
            lemma_pixels_len(c, kl.0, kl.1, kl.2);
            lemma_write_rows_closed(p1, ts, last.x0, last.y0, last.width, last.height, last.data);
            // The last snapshot reads the pixels the canvas had before.
            assert forall|m: int| 0 <= m < last.width * last.height implies #[trigger] extract_region(
                p1,
                ts,
                last.x0,
                last.y0,
                last.width,
                last.height,
            )[m] == extract_region(p0, ts, last.x0, last.y0, last.width, last.height)[m] by {
                lemma_pos_in_rows(ts, last.x0, last.y0, last.width, last.height, m);
                let pos = region_pos(ts, last.x0, last.y0, last.width, m);
                assert(hits(c, ss[n], kl, pos));
                assert forall|i: int| 0 <= i < front.len() implies !hits(c, front[i], kl, pos) by {
                    assert(front[i] == ss[i]);
                    assert(!hits(c, ss[i], kl, pos));
                }
            }
            assert(extract_region(p1, ts, last.x0, last.y0, last.width, last.height) =~= extract_region(
                p0,
                ts,
                last.x0,
                last.y0,
                last.width,
                last.height,
            ));
        }
        assert(st.1 == swap_step(c, last).1);
        assert forall|i: int| 0 <= i < ss.len() implies #[trigger] r.1[i] == swap_step(c, ss[i]).1 by {
            if i < n {
                assert(front[i] == ss[i]);
            }
        }
        // Pixels no snapshot covers.
        assert forall|l: int, tx: i32, ty: i32, j: int|
            0 <= j < c.tile_len() && (forall|i: int| 0 <= i < ss.len() ==> !hits(c, ss[i], (l, tx, ty), j)) implies #[trigger] r.0.pixels(
            l,
            tx,
            ty,
        )[j] == c.pixels(l, tx, ty)[j] by {
            let k = (l, tx, ty);
            assert forall|i: int| 0 <= i < front.len() implies !hits(c, front[i], k, j) by {
                assert(front[i] == ss[i]);
                assert(!hits(c, ss[i], k, j));
            }
            assert(!hits(c, ss[n], k, j));
            assert(c1.pixels(l, tx, ty)[j] == c.pixels(l, tx, ty)[j]);
            if last.layer_idx < c.layers.len() && k == kl {
                lemma_pixels_len(c1, l, tx, ty);
            }
        }
        // Pixels some snapshot covers.
        assert forall|i: int, l: int, tx: i32, ty: i32, j: int|
            0 <= i < ss.len() && 0 <= j < c.tile_len() && #[trigger] hits(c, ss[i], (l, tx, ty), j) implies r.0.pixels(
            l,
            tx,
            ty,
        )[j] == ss[i].data[rows_offset(ts, ss[i].x0, ss[i].y0, ss[i].width, j)] by {
            let k = (l, tx, ty);
            lemma_pixels_len(c1, l, tx, ty);
            if i < n {
                assert(front[i] == ss[i]);
                assert(hits(c, front[i], k, j));
                assert(!hits(c, ss[n], k, j));
            }
        }
    }
}

/// Swapping a reversible action twice gives back the action, the selection
/// and the transform, and leaves the canvas showing the same pixels.
pub proof fn lemma_swap_action_twice<S, T>(c: CanvasView, a: ActionView<S, T>, sel: S, tr: Option<T>)
    requires
        c.wf(),
        reversible(c, a),
    ensures
        ({
            let r1 = swap_action(c, a, sel, tr);
            let r2 = swap_action(r1.1, r1.0, r1.2, r1.3);
            &&& r2.0 == a
            &&& r2.2 == sel
            &&& r2.3 == tr
            &&& same_pixels(r2.1, c)
        }),
{
    let ss = a.tiles;
    let ts = c.tile_size;
    lemma_swap_all_rows(c, ss);
    let r1 = swap_all(c, ss);
    let c1 = r1.0;
    let s1 = r1.1;
    assert forall|i: int| 0 <= i < s1.len() implies restorable(c1, #[trigger] s1[i]) by {
        assert(s1[i] == swap_step(c, ss[i]).1);
        assert(restorable(c, ss[i]));
    }
    assert forall|i: int, k: (int, i32, i32), j: int| 0 <= i < s1.len() implies #[trigger] hits(c1, s1[i], k, j)
        == hits(c, ss[i], k, j) by {
        assert(s1[i] == swap_step(c, ss[i]).1);
    }
    assert forall|a2: int, b: int, k: (int, i32, i32), j: int|
        0 <= a2 < s1.len() && 0 <= b < s1.len() && a2 != b && #[trigger] hits(c1, s1[a2], k, j) implies !#[trigger] hits(
        c1,
        s1[b],
        k,
        j,
    ) by {
        assert(hits(c1, s1[a2], k, j) == hits(c, ss[a2], k, j));
        assert(hits(c1, s1[b], k, j) == hits(c, ss[b], k, j));
    }
    lemma_swap_all_rows(c1, s1);
    let r2 = swap_all(c1, s1);
    let c2 = r2.0;
    // Each snapshot comes back.
    assert forall|i: int| 0 <= i < ss.len() implies #[trigger] r2.1[i] == ss[i] by {
        let s = ss[i];
        assert(s1[i] == swap_step(c, s).1);
        assert(r2.1[i] == swap_step(c1, s1[i]).1);
        if s.layer_idx < c.layers.len() {
            let k = snapshot_key(s);
            assert(restorable(c, s));
            assert forall|m: int| 0 <= m < s.data.len() implies #[trigger] r2.1[i].data[m] == s.data[m] by {
                lemma_pos_in_rows(ts, s.x0, s.y0, s.width, s.height, m);
                let pos = region_pos(ts, s.x0, s.y0, s.width, m);
                assert(hits(c, ss[i], k, pos));
            }
            assert(r2.1[i].data =~= s.data);
        }
    }
    assert(r2.1 =~= ss);
    // Every pixel comes back.
    assert forall|l: int, tx: i32, ty: i32| #[trigger] c2.pixels(l, tx, ty) == c.pixels(l, tx, ty) by {
        let k = (l, tx, ty);
        lemma_pixels_len(c, l, tx, ty);
        lemma_pixels_len(c2, l, tx, ty);
        assert forall|j: int| 0 <= j < c.tile_len() implies #[trigger] c2.pixels(l, tx, ty)[j] == c.pixels(
            l,
            tx,
            ty,
        )[j] by {
            if exists|i: int| 0 <= i < ss.len() && hits(c, ss[i], k, j) {
                let i = choose|i: int| 0 <= i < ss.len() && hits(c, ss[i], k, j);
                let s = ss[i];
                assert(hits(c1, s1[i], k, j));
                assert(s1[i] == swap_step(c, s).1);
                lemma_rows_offset(ts, s.x0, s.y0, s.width, s.height, j);
            } else {
                assert forall|i: int| 0 <= i < s1.len() implies !hits(c1, s1[i], k, j) by {
                    assert(!hits(c, ss[i], k, j));
                }
                assert(c2.pixels(l, tx, ty)[j] == c1.pixels(l, tx, ty)[j]);
            }
        }
        assert(c2.pixels(l, tx, ty) =~= c.pixels(l, tx, ty));
    }
}

/// Undo followed by redo restores the history, the selection and the
/// transform, and the canvas shows the same pixels as before, provided the
/// undone action is reversible; redo can always be called after the undo.
pub proof fn lemma_undo_then_redo<S, T>(e: EditState<S, T>)
    requires
        e.history.undo.len() > 0,
        e.canvas.wf(),
        reversible(e.canvas, e.history.undo.last()),
    ensures
        action_fits(undo_effect(e).canvas, undo_effect(e).history.redo.last()),
        redo_effect(undo_effect(e)).history == e.history,
        redo_effect(undo_effect(e)).selection == e.selection,
        redo_effect(undo_effect(e)).transform == e.transform,
        same_pixels(redo_effect(undo_effect(e)).canvas, e.canvas),
{
    let a = e.history.undo.last();
    lemma_swap_action_twice(e.canvas, a, e.selection, e.transform);
    lemma_fits_after_swap(e.canvas, a, e.selection, e.transform);
    let u = undo_effect(e);
    assert(u.history.redo.last() == swap_action(e.canvas, a, e.selection, e.transform).0);
    assert(redo_effect(u).history.undo =~= e.history.undo);
    assert(redo_effect(u).history.redo =~= e.history.redo);
}

/// Redo followed by undo restores the history, the selection and the
/// transform, and the canvas shows the same pixels as before, provided the
/// redone action is reversible; undo can always be called after the redo.
pub proof fn lemma_redo_then_undo<S, T>(e: EditState<S, T>)
    requires
        e.history.redo.len() > 0,
        e.canvas.wf(),
        reversible(e.canvas, e.history.redo.last()),
    ensures
        action_fits(redo_effect(e).canvas, redo_effect(e).history.undo.last()),
        undo_effect(redo_effect(e)).history == e.history,
        undo_effect(redo_effect(e)).selection == e.selection,
        undo_effect(redo_effect(e)).transform == e.transform,
        same_pixels(undo_effect(redo_effect(e)).canvas, e.canvas),
{
    let a = e.history.redo.last();
    lemma_swap_action_twice(e.canvas, a, e.selection, e.transform);
    lemma_fits_after_swap(e.canvas, a, e.selection, e.transform);
    let r = redo_effect(e);
    assert(r.history.undo.last() == swap_action(e.canvas, a, e.selection, e.transform).0);
    assert(undo_effect(r).history.undo =~= e.history.undo);
    assert(undo_effect(r).history.redo =~= e.history.redo);
}

/// Right after an action is pushed there is nothing to redo, and undo
/// swaps exactly that action with the canvas, leaving the earlier actions
/// to undo and the swapped action alone to redo.
pub proof fn lemma_push_then_undo<S, T>(e: EditState<S, T>, a: ActionView<S, T>)
    ensures
        ({
            let p = EditState { history: HistoryView { undo: e.history.undo.push(a), redo: Seq::empty() }, ..e };
            let r = swap_action(e.canvas, a, e.selection, e.transform);
            &&& redo_effect(p) == p
            &&& undo_effect(p) == (EditState {
                history: HistoryView { undo: e.history.undo, redo: seq![r.0] },
                canvas: r.1,
                selection: r.2,
                transform: r.3,
            })
        }),
{
    let p = EditState { history: HistoryView { undo: e.history.undo.push(a), redo: Seq::empty() }, ..e };
    let r = swap_action(e.canvas, a, e.selection, e.transform);
    assert(p.history.undo.drop_last() =~= e.history.undo);
    assert(p.history.redo.push(r.0) =~= seq![r.0]);
}

/// After swapping a reversible action, the swapped action fits the new
/// canvas.
proof fn lemma_fits_after_swap<S, T>(c: CanvasView, a: ActionView<S, T>, sel: S, tr: Option<T>)
    requires
        c.wf(),
        reversible(c, a),
    ensures
        action_fits(swap_action(c, a, sel, tr).1, swap_action(c, a, sel, tr).0),
{
    lemma_swap_all_rows(c, a.tiles);
    let r = swap_action(c, a, sel, tr);
    assert forall|i: int| 0 <= i < r.0.tiles.len() implies snapshot_fits(r.1, #[trigger] r.0.tiles[i]) by {
        let s = a.tiles[i];
        assert(r.0.tiles[i] == swap_step(c, s).1);
        assert(restorable(c, s));
    }
}

/// Bring a list of per-layer histories to `target` entries: the first
/// ones are kept, extra ones dropped from the end, missing ones added
/// empty.
pub fn fit_histories<S, T>(histories: &mut Vec<History<S, T>>, target: usize)
    ensures
        final(histories)@.len() == target,
        forall|i: int|
            0 <= i < target && i < old(histories)@.len() ==> #[trigger] final(histories)@[i] == old(histories)@[i],
        forall|i: int|
            old(histories)@.len() <= i < target ==> (#[trigger] final(histories)@[i])@.undo == Seq::<
                ActionView<S, T>,
            >::empty() && final(histories)@[i]@.redo == Seq::<ActionView<S, T>>::empty(),
{
    if histories.len() > target {
        histories.truncate(target);
    }
    let n = histories.len();
    while histories.len() < target
        invariant
            n == if old(histories)@.len() > target { target as int } else { old(histories)@.len() as int },
            n <= histories@.len() <= target,
            forall|i: int| 0 <= i < n ==> #[trigger] histories@[i] == old(histories)@[i],
            forall|i: int|
                n <= i < histories@.len() ==> (#[trigger] histories@[i])@.undo == Seq::<ActionView<S, T>>::empty()
                    && histories@[i]@.redo == Seq::<ActionView<S, T>>::empty(),
        decreases target - histories@.len(),
    {
        histories.push(History::new());
    }
}

} // verus!
