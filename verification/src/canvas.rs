use vstd::prelude::*;
use vstd::string::*;
use crate::pixel::{Pixel, transparent};
use crate::text::{decimal, prefixed_number};
use crate::region::{region_fits, extract_region, write_region, read_region, write_region_into};
use crate::bounds::{
    content_at, tile_content, encloses, edge, along, from_acc, pixel_x, pixel_y, map_edge_met, tile_bounds,
};

verus! {

/// What a tile holds: its pixel buffer, if one was allocated, and the flag
/// that marks it as holding only transparent pixels.
pub struct TileView {
    pub data: Option<Seq<Pixel>>,
    pub is_empty: bool,
}

/// A tile's buffer, if any, holds exactly `len` pixels, all of them
/// transparent when the tile is marked empty.
pub open spec fn tile_ok(t: TileView, len: nat) -> bool {
    match t.data {
        Some(d) => d.len() == len && (t.is_empty ==> all_transparent(d)),
        None => true,
    }
}

/// The value stored under `k`, if any.
pub open spec fn lookup<K, V>(m: Map<K, V>, k: K) -> Option<V> {
    if m.dom().contains(k) {
        Some(m[k])
    } else {
        None
    }
}

/// A buffer of `len` copies of `fill`.
pub open spec fn filled(len: nat, fill: Pixel) -> Seq<Pixel> {
    Seq::new(len, |i: int| fill)
}

/// A tile after making sure it has a buffer: a tile that has one is kept,
/// otherwise a buffer of `len` copies of `fill` is allocated and the tile
/// counts as empty exactly when `fill` is transparent.
pub open spec fn ensured(t: Option<TileView>, fill: Pixel, len: nat) -> TileView {
    match t {
        Some(tv) => match tv.data {
            Some(_) => tv,
            None => TileView { data: Some(filled(len, fill)), is_empty: fill == transparent() },
        },
        None => TileView { data: Some(filled(len, fill)), is_empty: fill == transparent() },
    }
}

/// The buffer of a tile that may be absent.
pub open spec fn tile_data(t: Option<TileView>) -> Option<Seq<Pixel>> {
    match t {
        Some(tv) => tv.data,
        None => None,
    }
}

/// The contents of an optional buffer.
pub open spec fn opt_seq(v: Option<Vec<Pixel>>) -> Option<Seq<Pixel>> {
    match v {
        Some(d) => Some(d@),
        None => None,
    }
}

/// Element-wise copy of a pixel buffer.
pub fn copy_pixels(src: &Vec<Pixel>) -> (dst: Vec<Pixel>)
    ensures
        dst@ == src@,
{
    let mut dst: Vec<Pixel> = Vec::with_capacity(src.len());
    let mut i: usize = 0;
    while i < src.len()
        invariant
            i <= src@.len(),
            dst@ == src@.subrange(0, i as int),
        decreases src@.len() - i,
    {
        dst.push(src[i]);
        i = i + 1;
        assert(dst@ =~= src@.subrange(0, i as int));
    }
    assert(src@.subrange(0, src@.len() as int) =~= src@);
    dst
}

/// Every pixel of the buffer is transparent.
pub open spec fn all_transparent(d: Seq<Pixel>) -> bool {
    forall|i: int| 0 <= i < d.len() ==> d[i] == transparent()
}

/// Whether every pixel of the buffer is transparent.
pub fn is_all_transparent(d: &Vec<Pixel>) -> (r: bool)
    ensures
        r == all_transparent(d@),
{
    let mut i: usize = 0;
    while i < d.len()
        invariant
            i <= d@.len(),
            forall|j: int| 0 <= j < i ==> d@[j] == transparent(),
        decreases d@.len() - i,
    {
        if !d[i].is_transparent() {
            return false;
        }
        i = i + 1;
    }
    true
}

/// A tile of the upper layer takes part in a merge: it has a buffer and is
/// not marked empty.
pub open spec fn merges(t: Option<TileView>) -> bool {
    match t {
        Some(tv) => tv.data is Some && !tv.is_empty,
        None => false,
    }
}

/// The pixels a tile of the lower layer contributes to a merge: its buffer,
/// or transparent pixels when it has none.
pub open spec fn merge_base(t: Option<TileView>, len: nat) -> Seq<Pixel> {
    match t {
        Some(tv) => match tv.data {
            Some(d) => d,
            None => filled(len, transparent()),
        },
        None => filled(len, transparent()),
    }
}

/// `out` is a possible result of blending `top` over `bottom` pixel by pixel
/// with `f`, flagged empty exactly when every result pixel is transparent.
pub open spec fn blended<F: Fn(Pixel, Pixel) -> Pixel>(
    f: F,
    top: Seq<Pixel>,
    bottom: Seq<Pixel>,
    out: TileView,
) -> bool {
    match out.data {
        Some(d) => {
            &&& d.len() == top.len()
            &&& forall|i: int| 0 <= i < top.len() ==> call_ensures(f, (top[i], bottom[i]), #[trigger] d[i])
            &&& out.is_empty == all_transparent(d)
        },
        None => false,
    }
}

/// Blends two buffers pixel by pixel with `f`.
pub fn blend_buffers<F: Fn(Pixel, Pixel) -> Pixel>(top: &Vec<Pixel>, bottom: &Vec<Pixel>, f: &F) -> (out: Vec<Pixel>)
    requires
        top@.len() == bottom@.len(),
        forall|a: Pixel, b: Pixel| call_requires(*f, (a, b)),
    ensures
        out@.len() == top@.len(),
        forall|i: int| 0 <= i < top@.len() ==> call_ensures(*f, (top@[i], bottom@[i]), #[trigger] out@[i]),
{
    let mut out: Vec<Pixel> = Vec::new();
    let mut i: usize = 0;
    while i < top.len()
        invariant
            i <= top@.len(),
            top@.len() == bottom@.len(),
            out@.len() == i,
            forall|a: Pixel, b: Pixel| call_requires(*f, (a, b)),
            forall|j: int| 0 <= j < i ==> call_ensures(*f, (top@[j], bottom@[j]), #[trigger] out@[j]),
        decreases top@.len() - i,
    {
        let p = f(top[i], bottom[i]);
        out.push(p);
        i = i + 1;
    }
    out
}

/// The selection test `f` answers the same for the same pixel.
pub open spec fn deterministic<F: Fn(i32, i32) -> bool>(f: F) -> bool {
    forall|x: i32, y: i32, a: bool, b: bool|
        call_ensures(f, (x, y), a) && call_ensures(f, (x, y), b) ==> a == b
}

/// The selection test `f` holds for the pixel at canvas coordinates (x, y).
pub open spec fn selected<F: Fn(i32, i32) -> bool>(f: F, x: int, y: int) -> bool {
    call_ensures(f, (x as i32, y as i32), true)
}

/// Canvas coordinate of pixel `i` along a tile row or column starting at
/// tile coordinate `t`.
pub open spec fn canvas_coord(t: i32, ts: nat, i: int) -> int {
    t * ts + i
}

/// Every pixel of a tile at coordinate `t` along one axis has a canvas
/// coordinate that is an `i32`.
pub open spec fn coord_fits(t: i32, ts: nat) -> bool {
    i32::MIN <= t * ts && t * ts + ts <= i32::MAX + 1
}

/// Pixel `j` of the tile (tx, ty) is moved to the floating layer: it is
/// selected and not transparent.
pub open spec fn lifted_at<F: Fn(i32, i32) -> bool>(f: F, ts: nat, tx: i32, ty: i32, d: Seq<Pixel>, j: int) -> bool {
    selected(f, canvas_coord(tx, ts, j % (ts as int)), canvas_coord(ty, ts, j / (ts as int))) && d[j]
        != transparent()
}

/// The pixels of a tile that go to the floating layer; transparent elsewhere.
pub open spec fn lifted<F: Fn(i32, i32) -> bool>(f: F, ts: nat, tx: i32, ty: i32, d: Seq<Pixel>) -> Seq<Pixel> {
    Seq::new(d.len(), |j: int| if lifted_at(f, ts, tx, ty, d, j) { d[j] } else { transparent() })
}

/// The pixels of a tile that stay; transparent where they were lifted.
pub open spec fn left_behind<F: Fn(i32, i32) -> bool>(f: F, ts: nat, tx: i32, ty: i32, d: Seq<Pixel>) -> Seq<Pixel> {
    Seq::new(d.len(), |j: int| if lifted_at(f, ts, tx, ty, d, j) { transparent() } else { d[j] })
}

/// Lifting a selection loses and duplicates nothing: each pixel of the
/// tile either moves to the floating layer, leaving transparency behind,
/// or stays where it was, the floating layer being transparent there.
pub proof fn lemma_lift_partitions<F: Fn(i32, i32) -> bool>(f: F, ts: nat, tx: i32, ty: i32, d: Seq<Pixel>, j: int)
    requires
        0 <= j < d.len(),
    ensures
        (lifted(f, ts, tx, ty, d)[j] == d[j] && left_behind(f, ts, tx, ty, d)[j] == transparent()) || (lifted(
            f,
            ts,
            tx,
            ty,
            d,
        )[j] == transparent() && left_behind(f, ts, tx, ty, d)[j] == d[j]),
        lifted(f, ts, tx, ty, d).len() == d.len(),
        left_behind(f, ts, tx, ty, d).len() == d.len(),
{
}

/// Floating a selection goes by pixel position: pixel `j` of the tile
/// (tx, ty), at column `j % ts` and row `j / ts` of the tile, goes to the
/// floating layer exactly when it is not transparent and the selection
/// holds at canvas position (tx * ts + j % ts, ty * ts + j / ts); it then
/// leaves a transparent pixel behind, and otherwise stays while the
/// floating layer is transparent there.
pub proof fn lemma_lift_by_position<F: Fn(i32, i32) -> bool>(f: F, ts: nat, tx: i32, ty: i32, d: Seq<Pixel>, j: int)
    requires
        0 <= j < d.len(),
        ts > 0,
    ensures
        ({
            let x = tx * ts + j % (ts as int);
            let y = ty * ts + j / (ts as int);
            let clear = Pixel { r: 0, g: 0, b: 0, a: 0 };
            let moves = d[j] != clear && call_ensures(f, (x as i32, y as i32), true);
            &&& lifted(f, ts, tx, ty, d)[j] == (if moves { d[j] } else { clear })
            &&& left_behind(f, ts, tx, ty, d)[j] == (if moves { clear } else { d[j] })
        }),
{
}

/// A tile and its counterpart on the floating layer after lifting the
/// selection out of it: a tile with a buffer keeps what is left behind, and
/// the floating layer gets the lifted pixels when there are any.
pub open spec fn lift_result<F: Fn(i32, i32) -> bool>(f: F, ts: nat, k: (i32, i32), t: Option<TileView>) -> (
    Option<TileView>,
    Option<TileView>,
) {
    match t {
        Some(tv) => match tv.data {
            Some(d) => (
                Some(TileView { data: Some(left_behind(f, ts, k.0, k.1, d)), is_empty: tv.is_empty }),
                if all_transparent(lifted(f, ts, k.0, k.1, d)) {
                    None
                } else {
                    Some(TileView { data: Some(lifted(f, ts, k.0, k.1, d)), is_empty: false })
                },
            ),
            None => (t, None),
        },
        None => (None, None),
    }
}

/// Splits a tile buffer into the selected, non-transparent pixels and the
/// rest; the flag tells whether anything was selected.
fn split_tile<F: Fn(i32, i32) -> bool>(
    d: &Vec<Pixel>,
    ts: usize,
    tx: i32,
    ty: i32,
    contains: &F,
) -> (r: (Vec<Pixel>, Vec<Pixel>, bool))
    requires
        ts > 0,
        ts <= i32::MAX,
        d@.len() == ts * ts,
        coord_fits(tx, ts as nat),
        coord_fits(ty, ts as nat),
        forall|x: i32, y: i32| call_requires(*contains, (x, y)),
        deterministic(*contains),
    ensures
        r.0@ == left_behind(*contains, ts as nat, tx, ty, d@),
        r.1@ == lifted(*contains, ts as nat, tx, ty, d@),
        r.2 == !all_transparent(r.1@),
{
    let n = d.len();
    let mut rest: Vec<Pixel> = Vec::new();
    let mut up: Vec<Pixel> = Vec::new();
    let mut any = false;
    let mut j: usize = 0;
    let ghost tsn = ts as nat;
    while j < n
        invariant
            n == d@.len(),
            n == ts * ts,
            ts > 0,
            ts <= i32::MAX,
            j <= n,
            coord_fits(tx, tsn),
            coord_fits(ty, tsn),
            tsn == ts,
            forall|x: i32, y: i32| call_requires(*contains, (x, y)),
            deterministic(*contains),
            rest@ == left_behind(*contains, tsn, tx, ty, d@).subrange(0, j as int),
            up@ == lifted(*contains, tsn, tx, ty, d@).subrange(0, j as int),
            any == !all_transparent(up@),
        decreases n - j,
    {
        let x = j % ts;
        let y = j / ts;
        proof {
            assert(x < ts);
            assert(y < ts) by (nonlinear_arith)
                requires
                    y == j / ts,
                    j < ts * ts,
                    ts > 0,
            ;
            assert(tx * ts + x < i32::MAX + 1);
            assert(ty * ts + y < i32::MAX + 1);
        }
        let px = tx * (ts as i32) + (x as i32);
        let py = ty * (ts as i32) + (y as i32);
        let inside = contains(px, py);
        let color = d[j];
        proof {
            assert(inside == selected(*contains, canvas_coord(tx, tsn, (j as int) % (ts as int)), canvas_coord(ty, tsn, (j as int) / (ts as int))));
        }
        if inside && !color.is_transparent() {
            up.push(color);
            rest.push(Pixel::transparent());
            any = true;
        } else {
            up.push(Pixel::transparent());
            rest.push(color);
        }
        proof {
            assert(rest@ =~= left_behind(*contains, tsn, tx, ty, d@).subrange(0, j + 1));
            assert(up@ =~= lifted(*contains, tsn, tx, ty, d@).subrange(0, j + 1));
            let last = (up@.len() - 1) as int;
            if !all_transparent(up@.drop_last()) {
                let k = choose|k: int| 0 <= k < up@.len() - 1 && up@.drop_last()[k] != transparent();
                assert(up@[k] != transparent());
            } else if up@[last] != transparent() {
                assert(!all_transparent(up@));
            } else {
                assert forall|k: int| 0 <= k < up@.len() implies up@[k] == transparent() by {
                    if k < last {
                        assert(up@.drop_last()[k] == up@[k]);
                    }
                }
            }
        }
        j = j + 1;
    }
    proof {
        assert(left_behind(*contains, tsn, tx, ty, d@).subrange(0, n as int) =~= left_behind(*contains, tsn, tx, ty, d@));
        assert(lifted(*contains, tsn, tx, ty, d@).subrange(0, n as int) =~= lifted(*contains, tsn, tx, ty, d@));
    }
    (rest, up, any)
}

/// Position of an entry with coordinates `k`.
spec fn index_in(tiles: Seq<LayerTile>, k: (i32, i32)) -> int {
    choose|i: int| 0 <= i < tiles.len() && (tiles[i].tx, tiles[i].ty) == k
}

/// Storage of one tile of one layer, filled lazily.
pub struct TileCell {
    pub data: Option<Vec<Pixel>>,
    /// True if the tile contains only transparent pixels.
    pub is_empty: bool,
}

impl View for TileCell {
    type V = TileView;

    open spec fn view(&self) -> TileView {
        TileView {
            data: match self.data {
                Some(d) => Some(d@),
                None => None,
            },
            is_empty: self.is_empty,
        }
    }
}

/// A tile cell together with its tile coordinates.
pub struct LayerTile {
    pub tx: i32,
    pub ty: i32,
    pub cell: TileCell,
}

/// Everything about a layer but its tiles.
pub struct LayerInfo {
    pub name: Seq<char>,
    pub visible: bool,
    pub opacity_bits: u32,
    pub locked: bool,
}

/// Single painting layer with its own opacity, visibility and tile storage.
pub struct Layer {
    pub name: String,
    pub visible: bool,
    /// IEEE-754 single-precision bit pattern of the layer opacity (0..=1).
    pub opacity_bits: u32,
    pub locked: bool,
    tiles: Vec<LayerTile>,
}

/// Bit pattern of the opacity 1.0.
pub const FULL_OPACITY_BITS: u32 = 0x3f80_0000;

impl Layer {
    pub closed spec fn key_at(&self, i: int) -> (i32, i32) {
        (self.tiles@[i].tx, self.tiles@[i].ty)
    }

    pub closed spec fn entry_count(&self) -> nat {
        self.tiles@.len()
    }

    pub closed spec fn has_key(&self, k: (i32, i32)) -> bool {
        exists|i: int| 0 <= i < self.tiles@.len() && self.key_at(i) == k
    }

    pub closed spec fn index_of(&self, k: (i32, i32)) -> int {
        index_in(self.tiles@, k)
    }

    /// The layer's tiles by coordinates.
    pub closed spec fn tile_map(&self) -> Map<(i32, i32), TileView> {
        Map::new(|k: (i32, i32)| self.has_key(k), |k: (i32, i32)| self.tiles@[self.index_of(k)].cell@)
    }

    pub closed spec fn info(&self) -> LayerInfo {
        LayerInfo {
            name: self.name@,
            visible: self.visible,
            opacity_bits: self.opacity_bits,
            locked: self.locked,
        }
    }

    /// No coordinates occur twice, every buffer holds `tile_len` pixels, and
    /// a tile marked empty holds only transparent pixels.
    pub closed spec fn wf(&self, tile_len: nat) -> bool {
        &&& forall|i: int, j: int|
            0 <= i < self.tiles@.len() && 0 <= j < self.tiles@.len() && i != j ==> self.key_at(i)
                != self.key_at(j)
        &&& forall|i: int|
            0 <= i < self.tiles@.len() ==> tile_ok((#[trigger] self.tiles@[i]).cell@, tile_len)
    }

    proof fn lemma_map_at(&self, tile_len: nat, i: int)
        requires
            self.wf(tile_len),
            0 <= i < self.tiles@.len(),
        ensures
            self.tile_map().dom().contains(self.key_at(i)),
            self.tile_map()[self.key_at(i)] == self.tiles@[i].cell@,
            self.index_of(self.key_at(i)) == i,
    {
        let k = self.key_at(i);
        assert(self.has_key(k));
        let j = self.index_of(k);
        assert(self.key_at(j) == k);
    }

    proof fn lemma_map_wf(&self, tile_len: nat)
        requires
            self.wf(tile_len),
        ensures
            forall|k: (i32, i32)|
                #[trigger] self.tile_map().dom().contains(k) ==> tile_ok(self.tile_map()[k], tile_len),
    {
        assert forall|k: (i32, i32)| #[trigger] self.tile_map().dom().contains(k) implies tile_ok(
            self.tile_map()[k],
            tile_len,
        ) by {
            let i = self.index_of(k);
            assert(0 <= i < self.tiles@.len());
            assert(tile_ok(self.tiles@[i].cell@, tile_len));
        }
    }

    /// Replace everything about the layer but its tiles.
    fn set_info(&mut self, name: String, visible: bool, opacity_bits: u32, locked: bool)
        ensures
            final(self).info() == (LayerInfo { name: name@, visible, opacity_bits, locked }),
            final(self).tiles@ == old(self).tiles@,
            final(self).tile_map() == old(self).tile_map(),
            forall|n: nat| old(self).wf(n) ==> final(self).wf(n),
    {
        self.name = name;
        self.visible = visible;
        self.opacity_bits = opacity_bits;
        self.locked = locked;
        proof {
            assert forall|k: (i32, i32)| self.has_key(k) == old(self).has_key(k) by {
                assert forall|i: int| 0 <= i < self.tiles@.len() implies self.key_at(i) == old(self).key_at(i) by {}
            }
            assert(self.tile_map() =~= old(self).tile_map());
            assert forall|n: nat| old(self).wf(n) implies self.wf(n) by {
                assert forall|i: int| 0 <= i < self.tiles@.len() implies self.key_at(i) == old(self).key_at(i) by {}
            }
        }
    }

    fn new(name: String, locked: bool) -> (l: Layer)
        ensures
            l.name@ == name@,
            l.visible,
            l.locked == locked,
            l.opacity_bits == FULL_OPACITY_BITS,
            l.tile_map() == Map::<(i32, i32), TileView>::empty(),
            forall|n: nat| l.wf(n),
    {
        let l = Layer {
            name,
            visible: true,
            opacity_bits: FULL_OPACITY_BITS,
            locked,
            tiles: Vec::new(),
        };
        assert(l.tile_map() =~= Map::<(i32, i32), TileView>::empty());
        l
    }

    fn push_tile(&mut self, tx: i32, ty: i32, cell: TileCell, Ghost(tile_len): Ghost<nat>)
        requires
            old(self).wf(tile_len),
            !old(self).has_key((tx, ty)),
            tile_ok(cell@, tile_len),
        ensures
            final(self).wf(tile_len),
            final(self).info() == old(self).info(),
            final(self).tile_map() == old(self).tile_map().insert((tx, ty), cell@),
            final(self).entry_count() == old(self).entry_count() + 1,
            final(self).key_at(old(self).entry_count() as int) == (tx, ty),
    {
        let ghost v = cell@;
        let ghost old_self = *self;
        self.tiles.push(LayerTile { tx, ty, cell });
        proof {
            let n = old_self.tiles@.len();
            assert(self.tiles@[n as int].cell@ == v);
            assert forall|i: int| 0 <= i < n implies self.tiles@[i] == old_self.tiles@[i] by {}
            assert forall|k: (i32, i32)| self.has_key(k) <==> old_self.has_key(k) || k == (tx, ty) by {
                if old_self.has_key(k) {
                    let i = old_self.index_of(k);
                    assert(self.key_at(i) == k);
                }
                if k == (tx, ty) {
                    assert(self.key_at(n as int) == k);
                }
                if self.has_key(k) {
                    let i = self.index_of(k);
                    if i < n {
                        assert(old_self.key_at(i) == k);
                    }
                }
            }
            assert forall|i: int, j: int|
                0 <= i < self.tiles@.len() && 0 <= j < self.tiles@.len() && i != j implies self.key_at(i)
                != self.key_at(j) by {
                if i == n {
                    assert(old_self.key_at(j) == self.key_at(j));
                } else if j == n {
                    assert(old_self.key_at(i) == self.key_at(i));
                } else {
                    assert(old_self.key_at(i) != old_self.key_at(j));
                }
            }
            assert forall|i: int| 0 <= i < self.tiles@.len() implies tile_ok(
                (#[trigger] self.tiles@[i]).cell@,
                tile_len,
            ) by {
                if i < n {
                    assert(tile_ok(old_self.tiles@[i].cell@, tile_len));
                }
            }
            assert(self.wf(tile_len));
            assert forall|k: (i32, i32)| #[trigger] self.tile_map().dom().contains(k) implies self.tile_map()[k]
                == old_self.tile_map().insert((tx, ty), v)[k] by {
                if k == (tx, ty) {
                    self.lemma_map_at(tile_len, n as int);
                } else {
                    assert(self.has_key(k));
                    assert(old_self.has_key(k));
                    let i = old_self.index_of(k);
                    old_self.lemma_map_at(tile_len, i);
                    self.lemma_map_at(tile_len, i);
                }
            }
            assert(self.tile_map() =~= old_self.tile_map().insert((tx, ty), v));
        }
    }

    fn replace_cell(&mut self, i: usize, cell: TileCell, Ghost(tile_len): Ghost<nat>) -> (prev: TileCell)
        requires
            old(self).wf(tile_len),
            i < old(self).entry_count(),
            tile_ok(cell@, tile_len),
        ensures
            final(self).wf(tile_len),
            final(self).info() == old(self).info(),
            final(self).tile_map() == old(self).tile_map().insert(old(self).key_at(i as int), cell@),
            final(self).entry_count() == old(self).entry_count(),
            forall|j: int| 0 <= j < old(self).entry_count() ==> final(self).key_at(j) == old(self).key_at(j),
            prev@ == old(self).tile_map()[old(self).key_at(i as int)],
            tile_ok(prev@, tile_len),
            final(self).tiles@[i as int].cell@ == cell@,
            forall|j: int|
                0 <= j < old(self).entry_count() && j != i ==> final(self).tiles@[j] == old(self).tiles@[j],
    {
        let ghost v = cell@;
        let ghost old_self = *self;
        proof {
            old_self.lemma_map_at(tile_len, i as int);
        }
        let tx = self.tiles[i].tx;
        let ty = self.tiles[i].ty;
        let mut e = LayerTile { tx, ty, cell };
        std::mem::swap(&mut self.tiles[i], &mut e);
        proof {
            let n = old_self.tiles@.len();
            assert forall|j: int| 0 <= j < n implies self.key_at(j) == old_self.key_at(j) by {}
            assert forall|k: (i32, i32)| self.has_key(k) <==> old_self.has_key(k) by {
                if old_self.has_key(k) {
                    let j = old_self.index_of(k);
                    assert(self.key_at(j) == k);
                }
                if self.has_key(k) {
                    let j = self.index_of(k);
                    assert(old_self.key_at(j) == k);
                }
            }
            assert forall|a: int, b: int|
                0 <= a < self.tiles@.len() && 0 <= b < self.tiles@.len() && a != b implies self.key_at(a)
                != self.key_at(b) by {
                assert(old_self.key_at(a) != old_self.key_at(b));
            }
            assert forall|j: int| 0 <= j < self.tiles@.len() implies tile_ok(
                (#[trigger] self.tiles@[j]).cell@,
                tile_len,
            ) by {
                if j != i {
                    assert(tile_ok(old_self.tiles@[j].cell@, tile_len));
                }
            }
            assert(self.wf(tile_len));
            assert forall|k: (i32, i32)| #[trigger] self.tile_map().dom().contains(k) implies self.tile_map()[k]
                == old_self.tile_map().insert((tx, ty), v)[k] by {
                assert(self.has_key(k));
                assert(old_self.has_key(k));
                let j = old_self.index_of(k);
                old_self.lemma_map_at(tile_len, j);
                self.lemma_map_at(tile_len, j);
                if j == i {
                    assert(self.tiles@[j].cell@ == v);
                } else {
                    assert(self.tiles@[j] == old_self.tiles@[j]);
                    assert(old_self.key_at(j) != old_self.key_at(i as int));
                    assert(k != (tx, ty));
                }
            }
            assert(self.key_at(i as int) == (tx, ty));
            assert(self.has_key((tx, ty)));
            assert(self.tile_map() =~= old_self.tile_map().insert((tx, ty), v));
        }
        e.cell
    }

    /// Makes sure the tile at the given coordinates has a buffer, filling a
    /// new one with `fill`; returns the entry's position.
    fn ensure(&mut self, tx: i32, ty: i32, fill: Pixel, tile_len: usize) -> (i: usize)
        requires
            old(self).wf(tile_len as nat),
        ensures
            final(self).wf(tile_len as nat),
            final(self).info() == old(self).info(),
            i < final(self).entry_count(),
            final(self).key_at(i as int) == (tx, ty),
            final(self).tile_map() == old(self).tile_map().insert(
                (tx, ty),
                ensured(lookup(old(self).tile_map(), (tx, ty)), fill, tile_len as nat),
            ),
    {
        let ghost tl = tile_len as nat;
        match self.find(tx, ty) {
            Some(i) => {
                proof {
                    self.lemma_map_at(tl, i as int);
                }
                if self.tiles[i].cell.data.is_none() {
                    let data = vec![fill; tile_len];
                    assert(data@ =~= filled(tl, fill));
                    let is_empty = fill.is_transparent();
                    let _ = self.replace_cell(i, TileCell { data: Some(data), is_empty }, Ghost(tl));
                } else {
                    proof {
                        assert(old(self).tile_map() =~= old(self).tile_map().insert(
                            (tx, ty),
                            ensured(lookup(old(self).tile_map(), (tx, ty)), fill, tl),
                        ));
                    }
                }
                i
            },
            None => {
                proof {
                    assert(!old(self).tile_map().dom().contains((tx, ty)));
                }
                let data = vec![fill; tile_len];
                assert(data@ =~= filled(tl, fill));
                let is_empty = fill.is_transparent();
                let i = self.tiles.len();
                self.push_tile(tx, ty, TileCell { data: Some(data), is_empty }, Ghost(tl));
                i
            },
        }
    }

    /// Copy of the buffer of the tile at the given coordinates; `None` when
    /// the tile is absent or has no buffer.
    fn data_copy(&self, tx: i32, ty: i32, Ghost(tile_len): Ghost<nat>) -> (r: Option<Vec<Pixel>>)
        requires
            self.wf(tile_len),
        ensures
            opt_seq(r) == tile_data(lookup(self.tile_map(), (tx, ty))),
    {
        match self.find(tx, ty) {
            Some(i) => {
                proof {
                    self.lemma_map_at(tile_len, i as int);
                }
                match &self.tiles[i].cell.data {
                    Some(d) => {
                        let c = copy_pixels(d);
                        Some(c)
                    },
                    None => None,
                }
            },
            None => None,
        }
    }

    /// Emptiness flag of the tile at the given coordinates, if present.
    fn empty_flag(&self, tx: i32, ty: i32, Ghost(tile_len): Ghost<nat>) -> (r: Option<bool>)
        requires
            self.wf(tile_len),
        ensures
            r == (match lookup(self.tile_map(), (tx, ty)) {
                Some(t) => Some(t.is_empty),
                None => None,
            }),
    {
        match self.find(tx, ty) {
            Some(i) => {
                proof {
                    self.lemma_map_at(tile_len, i as int);
                }
                Some(self.tiles[i].cell.is_empty)
            },
            None => None,
        }
    }

    /// Whether the tile at the given coordinates exists and has a buffer.
    fn has_data(&self, tx: i32, ty: i32, Ghost(tile_len): Ghost<nat>) -> (r: bool)
        requires
            self.wf(tile_len),
        ensures
            r == tile_data(lookup(self.tile_map(), (tx, ty))) is Some,
    {
        match self.find(tx, ty) {
            Some(i) => {
                proof {
                    self.lemma_map_at(tile_len, i as int);
                }
                self.tiles[i].cell.data.is_some()
            },
            None => false,
        }
    }

    /// Marks an existing tile as holding content.
    fn mark_not_empty(&mut self, tx: i32, ty: i32, Ghost(tile_len): Ghost<nat>)
        requires
            old(self).wf(tile_len),
        ensures
            final(self).wf(tile_len),
            final(self).info() == old(self).info(),
            final(self).tile_map() == (match lookup(old(self).tile_map(), (tx, ty)) {
                Some(t) => old(self).tile_map().insert(
                    (tx, ty),
                    TileView { data: t.data, is_empty: false },
                ),
                None => old(self).tile_map(),
            }),
    {
        match self.find(tx, ty) {
            Some(i) => {
                proof {
                    self.lemma_map_at(tile_len, i as int);
                }
                let prev = self.replace_cell(i, TileCell { data: None, is_empty: false }, Ghost(tile_len));
                let _ = self.replace_cell(i, TileCell { data: prev.data, is_empty: false }, Ghost(tile_len));
                proof {
                    assert(self.tile_map() =~= old(self).tile_map().insert(
                        (tx, ty),
                        TileView { data: prev@.data, is_empty: false },
                    ));
                }
            },
            None => {},
        }
    }

    /// Drops every buffer of the layer; the tiles stay, marked empty.
    fn clear_all(&mut self, Ghost(tile_len): Ghost<nat>)
        requires
            old(self).wf(tile_len),
        ensures
            final(self).wf(tile_len),
            final(self).info() == old(self).info(),
            final(self).tile_map() == Map::new(
                |k: (i32, i32)| old(self).tile_map().dom().contains(k),
                |k: (i32, i32)| TileView { data: None, is_empty: true },
            ),
    {
        let n = self.tiles.len();
        let mut i: usize = 0;
        while i < n
            invariant
                n == self.tiles@.len(),
                n == old(self).tiles@.len(),
                i <= n,
                self.wf(tile_len),
                self.info() == old(self).info(),
                forall|j: int| 0 <= j < n ==> self.key_at(j) == old(self).key_at(j),
                forall|j: int| 0 <= j < i ==> (#[trigger] self.tiles@[j]).cell@ == (TileView { data: None, is_empty: true }),
                forall|j: int| i <= j < n ==> (#[trigger] self.tiles@[j]) == old(self).tiles@[j],
            decreases n - i,
        {
            let ghost before = *self;
            let _ = self.replace_cell(i, TileCell { data: None, is_empty: true }, Ghost(tile_len));
            proof {
                self.lemma_map_at(tile_len, i as int);
            }
            i = i + 1;
        }
        proof {
            let m = Map::new(
                |k: (i32, i32)| old(self).tile_map().dom().contains(k),
                |k: (i32, i32)| TileView { data: None, is_empty: true },
            );
            assert forall|k: (i32, i32)| self.has_key(k) <==> old(self).has_key(k) by {
                if old(self).has_key(k) {
                    let j = old(self).index_of(k);
                    assert(self.key_at(j) == k);
                }
                if self.has_key(k) {
                    let j = self.index_of(k);
                    assert(old(self).key_at(j) == k);
                }
            }
            assert forall|k: (i32, i32)| #[trigger] self.tile_map().dom().contains(k) implies self.tile_map()[k]
                == m[k] by {
                let j = self.index_of(k);
                self.lemma_map_at(tile_len, j);
            }
            assert(self.tile_map() =~= m);
        }
    }

    /// Copies of all allocated buffers with their coordinates.
    fn capture(&self, Ghost(tile_len): Ghost<nat>) -> (r: Vec<((i32, i32), Vec<Pixel>)>)
        requires
            self.wf(tile_len),
        ensures
            forall|a: int, b: int| 0 <= a < b < r@.len() ==> r@[a].0 != r@[b].0,
            forall|a: int|
                0 <= a < r@.len() ==> tile_data(lookup(self.tile_map(), #[trigger] r@[a].0)) == Some(
                    r@[a].1@,
                ),
            forall|k: (i32, i32)|
                tile_data(#[trigger] lookup(self.tile_map(), k)) is Some ==> exists|a: int|
                    0 <= a < r@.len() && r@[a].0 == k,
    {
        let mut out: Vec<((i32, i32), Vec<Pixel>)> = Vec::new();
        let n = self.tiles.len();
        let ghost mut pos: Seq<int> = Seq::empty();
        let mut i: usize = 0;
        while i < n
            invariant
                n == self.tiles@.len(),
                i <= n,
                self.wf(tile_len),
                pos.len() == out@.len(),
                forall|a: int| 0 <= a < pos.len() ==> 0 <= #[trigger] pos[a] < i,
                forall|a: int, b: int| 0 <= a < b < pos.len() ==> pos[a] < pos[b],
                forall|a: int|
                    0 <= a < out@.len() ==> #[trigger] out@[a].0 == self.key_at(pos[a]) && self.tiles@[pos[a]].cell@.data
                        == Some(out@[a].1@),
                forall|j: int|
                    0 <= j < i && (#[trigger] self.tiles@[j]).cell.data is Some ==> exists|a: int|
                        0 <= a < pos.len() && pos[a] == j,
            decreases n - i,
        {
            let ghost old_pos = pos;
            match &self.tiles[i].cell.data {
                Some(d) => {
                    let c = copy_pixels(d);
                    out.push(((self.tiles[i].tx, self.tiles[i].ty), c));
                    proof {
                        pos = pos.push(i as int);
                        assert(pos[pos.len() - 1] == i as int);
                    }
                },
                None => {},
            }
            proof {
                assert forall|j: int|
                    0 <= j < i + 1 && (#[trigger] self.tiles@[j]).cell.data is Some implies exists|a: int|
                    0 <= a < pos.len() && pos[a] == j by {
                    if j < i {
                        let a = choose|a: int| 0 <= a < old_pos.len() && old_pos[a] == j;
                        assert(pos[a] == j);
                    } else {
                        assert(pos[pos.len() - 1] == j);
                    }
                }
            }
            i = i + 1;
        }
        proof {
            assert forall|a: int, b: int| 0 <= a < b < out@.len() implies out@[a].0 != out@[b].0 by {
                assert(out@[a].0 == self.key_at(pos[a]));
                assert(out@[b].0 == self.key_at(pos[b]));
                assert(pos[a] != pos[b]);
            }
            assert forall|a: int| 0 <= a < out@.len() implies tile_data(
                lookup(self.tile_map(), #[trigger] out@[a].0),
            ) == Some(out@[a].1@) by {
                assert(out@[a].0 == self.key_at(pos[a]));
                self.lemma_map_at(tile_len, pos[a]);
            }
            assert forall|k: (i32, i32)| tile_data(#[trigger] lookup(self.tile_map(), k)) is Some implies exists|
                a: int,
            | 0 <= a < out@.len() && out@[a].0 == k by {
                let j = self.index_of(k);
                self.lemma_map_at(tile_len, j);
                assert(self.tiles@[j].cell.data is Some);
                let a = choose|a: int| 0 <= a < pos.len() && pos[a] == j;
                assert(out@[a].0 == k);
            }
        }
        out
    }

    /// Blends every tile of `top` that has a buffer and is not marked empty
    /// over the tile at the same coordinates of this layer (allocated
    /// transparent if needed); other tiles are left alone.
    fn merge_from<F: Fn(Pixel, Pixel) -> Pixel>(&mut self, top: &Layer, blend: &F, tile_len: usize)
        requires
            old(self).wf(tile_len as nat),
            top.wf(tile_len as nat),
            forall|a: Pixel, b: Pixel| call_requires(*blend, (a, b)),
        ensures
            final(self).wf(tile_len as nat),
            final(self).info() == old(self).info(),
            forall|k: (i32, i32)|
                if merges(#[trigger] lookup(top.tile_map(), k)) {
                    final(self).tile_map().dom().contains(k) && blended(
                        *blend,
                        lookup(top.tile_map(), k).unwrap().data.unwrap(),
                        merge_base(lookup(old(self).tile_map(), k), tile_len as nat),
                        final(self).tile_map()[k],
                    )
                } else {
                    lookup(final(self).tile_map(), k) == lookup(old(self).tile_map(), k)
                },
    {
        let ghost tl = tile_len as nat;
        let n = top.tiles.len();
        let mut j: usize = 0;
        while j < n
            invariant
                n == top.tiles@.len(),
                j <= n,
                top.wf(tl),
                tl == tile_len,
                self.wf(tl),
                self.info() == old(self).info(),
                forall|a: Pixel, b: Pixel| call_requires(*blend, (a, b)),
                forall|k: (i32, i32)|
                    if merges(#[trigger] lookup(top.tile_map(), k)) && top.index_of(k) < j {
                        self.tile_map().dom().contains(k) && blended(
                            *blend,
                            lookup(top.tile_map(), k).unwrap().data.unwrap(),
                            merge_base(lookup(old(self).tile_map(), k), tl),
                            self.tile_map()[k],
                        )
                    } else {
                        lookup(self.tile_map(), k) == lookup(old(self).tile_map(), k)
                    },
            decreases n - j,
        {
            let tx = top.tiles[j].tx;
            let ty = top.tiles[j].ty;
            let ghost kj = (tx, ty);
            proof {
                top.lemma_map_at(tl, j as int);
            }
            let applies = match &top.tiles[j].cell.data {
                Some(_) => !top.tiles[j].cell.is_empty,
                None => false,
            };
            let ghost before = *self;
            if applies {
                let td = match &top.tiles[j].cell.data {
                    Some(d) => d,
                    None => {
                        proof {
                            assert(false);
                        }
                        return;
                    },
                };
                proof {
                    assert(top.index_of(kj) == j);
                    assert(merges(lookup(top.tile_map(), kj)));
                    assert(lookup(before.tile_map(), kj) == lookup(old(self).tile_map(), kj));
                }
                let i = self.ensure(tx, ty, Pixel::transparent(), tile_len);
                proof {
                    self.lemma_map_at(tl, i as int);
                }
                let prev = self.replace_cell(i, TileCell { data: None, is_empty: true }, Ghost(tl));
                let bd = match prev.data {
                    Some(d) => d,
                    None => {
                        proof {
                            assert(false);
                        }
                        Vec::new()
                    },
                };
                proof {
                    assert(bd@ == merge_base(lookup(old(self).tile_map(), kj), tl));
                    assert(td@.len() == tl);
                }
                let out = blend_buffers(td, &bd, blend);
                let e = is_all_transparent(&out);
                let ghost ov = out@;
                let _ = self.replace_cell(i, TileCell { data: Some(out), is_empty: e }, Ghost(tl));
                proof {
                    let t = TileView { data: Some(ov), is_empty: e };
                    assert(self.tile_map() == before.tile_map().insert(kj, t));
                    assert(blended(*blend, td@, bd@, t));
                }
            }
            proof {
                assert forall|k: (i32, i32)|
                    if merges(#[trigger] lookup(top.tile_map(), k)) && top.index_of(k) < j + 1 {
                        self.tile_map().dom().contains(k) && blended(
                            *blend,
                            lookup(top.tile_map(), k).unwrap().data.unwrap(),
                            merge_base(lookup(old(self).tile_map(), k), tl),
                            self.tile_map()[k],
                        )
                    } else {
                        lookup(self.tile_map(), k) == lookup(old(self).tile_map(), k)
                    } by {
                    if k == kj {
                        assert(top.index_of(k) == j);
                        assert(applies == merges(lookup(top.tile_map(), k)));
                    } else {
                        assert(lookup(self.tile_map(), k) == lookup(before.tile_map(), k));
                        if top.has_key(k) {
                            let m = top.index_of(k);
                            top.lemma_map_at(tl, m);
                            assert(m != j);
                        }
                    }
                }
            }
            j = j + 1;
        }
        proof {
            assert forall|k: (i32, i32)| #[trigger] merges(lookup(top.tile_map(), k)) implies top.index_of(k) < n by {
                assert(top.has_key(k));
            }
        }
    }

    /// Moves the selected, non-transparent pixels of every tile with a
    /// buffer into a new layer named "Floating Selection", which is returned.
    fn lift_selection<F: Fn(i32, i32) -> bool>(&mut self, ts: usize, contains: &F, Ghost(tl): Ghost<nat>) -> (fl: Layer)
        requires
            old(self).wf(tl),
            tl == ts * ts,
            ts > 0,
            ts <= i32::MAX,
            forall|x: i32, y: i32| call_requires(*contains, (x, y)),
            deterministic(*contains),
            forall|k: (i32, i32)|
                tile_data(#[trigger] lookup(old(self).tile_map(), k)) is Some ==> coord_fits(k.0, ts as nat)
                    && coord_fits(k.1, ts as nat),
        ensures
            final(self).wf(tl),
            final(self).info() == old(self).info(),
            fl.wf(tl),
            fl.info() == (LayerInfo {
                name: "Floating Selection"@,
                visible: true,
                opacity_bits: FULL_OPACITY_BITS,
                locked: false,
            }),
            forall|k: (i32, i32)|
                (lookup(final(self).tile_map(), k), #[trigger] lookup(fl.tile_map(), k)) == lift_result(
                    *contains,
                    ts as nat,
                    k,
                    lookup(old(self).tile_map(), k),
                ),
    {
        let mut fl = Layer::new(String::from_str("Floating Selection"), false);
        let n = self.tiles.len();
        let mut i: usize = 0;
        while i < n
            invariant
                n == self.tiles@.len(),
                n == old(self).tiles@.len(),
                i <= n,
                tl == ts * ts,
                ts > 0,
                ts <= i32::MAX,
                old(self).wf(tl),
                self.wf(tl),
                fl.wf(tl),
                self.info() == old(self).info(),
                fl.info() == (LayerInfo {
                    name: "Floating Selection"@,
                    visible: true,
                    opacity_bits: FULL_OPACITY_BITS,
                    locked: false,
                }),
                forall|j: int| 0 <= j < n ==> self.key_at(j) == old(self).key_at(j),
                forall|j: int| i <= j < n ==> (#[trigger] self.tiles@[j]) == old(self).tiles@[j],
                forall|x: i32, y: i32| call_requires(*contains, (x, y)),
                deterministic(*contains),
                forall|k: (i32, i32)|
                    tile_data(#[trigger] lookup(old(self).tile_map(), k)) is Some ==> coord_fits(k.0, ts as nat)
                        && coord_fits(k.1, ts as nat),
                forall|k: (i32, i32)|
                    if old(self).has_key(k) && old(self).index_of(k) < i {
                        (lookup(self.tile_map(), k), #[trigger] lookup(fl.tile_map(), k)) == lift_result(
                            *contains,
                            ts as nat,
                            k,
                            lookup(old(self).tile_map(), k),
                        )
                    } else {
                        lookup(self.tile_map(), k) == lookup(old(self).tile_map(), k) && lookup(fl.tile_map(), k)
                            is None
                    },
            decreases n - i,
        {
            let tx = self.tiles[i].tx;
            let ty = self.tiles[i].ty;
            let ghost k = (tx, ty);
            let ghost before = *self;
            let ghost fl_before = fl;
            proof {
                old(self).lemma_map_at(tl, i as int);
                self.lemma_map_at(tl, i as int);
                assert(old(self).key_at(i as int) == k);
                assert(lookup(self.tile_map(), k) == lookup(old(self).tile_map(), k));
                assert(lookup(fl.tile_map(), k) is None);
            }
            if self.tiles[i].cell.data.is_some() {
                let prev = self.replace_cell(i, TileCell { data: None, is_empty: true }, Ghost(tl));
                let was_empty = prev.is_empty;
                let d = match prev.data {
                    Some(d) => d,
                    None => {
                        proof {
                            assert(false);
                        }
                        Vec::new()
                    },
                };
                proof {
                    assert(tile_data(lookup(old(self).tile_map(), k)) == Some(d@));
                }
                let parts = split_tile(&d, ts, tx, ty, contains);
                let rest = parts.0;
                let up = parts.1;
                let any = parts.2;
                let ghost rv = rest@;
                let ghost uv = up@;
                proof {
                    assert(rv.len() == tl);
                }
                let _ = self.replace_cell(i, TileCell { data: Some(rest), is_empty: was_empty }, Ghost(tl));
                if any {
                    proof {
                        assert(!fl.tile_map().dom().contains(k));
                    }
                    fl.push_tile(tx, ty, TileCell { data: Some(up), is_empty: false }, Ghost(tl));
                }
                proof {
                    assert(self.tile_map() == before.tile_map().insert(
                        k,
                        TileView { data: Some(rv), is_empty: was_empty },
                    ));
                }
            }
            proof {
                assert forall|j: int| i + 1 <= j < n implies (#[trigger] self.tiles@[j]) == old(self).tiles@[j] by {
                    assert(self.tiles@[j] == before.tiles@[j]);
                }
                assert forall|k2: (i32, i32)|
                    if old(self).has_key(k2) && old(self).index_of(k2) < i + 1 {
                        (lookup(self.tile_map(), k2), #[trigger] lookup(fl.tile_map(), k2)) == lift_result(
                            *contains,
                            ts as nat,
                            k2,
                            lookup(old(self).tile_map(), k2),
                        )
                    } else {
                        lookup(self.tile_map(), k2) == lookup(old(self).tile_map(), k2) && lookup(
                            fl.tile_map(),
                            k2,
                        ) is None
                    } by {
                    if k2 == k {
                        assert(old(self).index_of(k) == i);
                    } else {
                        assert(lookup(self.tile_map(), k2) == lookup(before.tile_map(), k2));
                        assert(lookup(fl.tile_map(), k2) == lookup(fl_before.tile_map(), k2));
                        if old(self).has_key(k2) {
                            let m = old(self).index_of(k2);
                            old(self).lemma_map_at(tl, m);
                            assert(m != i);
                        }
                    }
                }
            }
            i = i + 1;
        }
        proof {
            assert forall|k: (i32, i32)|
                (lookup(self.tile_map(), k), #[trigger] lookup(fl.tile_map(), k)) == lift_result(
                    *contains,
                    ts as nat,
                    k,
                    lookup(old(self).tile_map(), k),
                ) by {
                if old(self).has_key(k) {
                    let m = old(self).index_of(k);
                    old(self).lemma_map_at(tl, m);
                } else {
                    assert(lookup(old(self).tile_map(), k) is None);
                }
            }
        }
        fl
    }

    /// Pixel `j` of entry `i` counts as content.
    closed spec fn entry_content<F: Fn(i32, i32) -> bool>(&self, sel: Option<&F>, ts: nat, i: int, j: int) -> bool {
        match self.tiles@[i].cell.data {
            Some(d) => content_at(sel, ts, self.tiles@[i].tx, self.tiles@[i].ty, d@, j),
            None => false,
        }
    }

    /// Edge `e` of `c` lies on a content pixel of one of the first `lim`
    /// entries.
    closed spec fn edge_met<F: Fn(i32, i32) -> bool>(
        &self,
        sel: Option<&F>,
        ts: nat,
        lim: int,
        c: (i32, i32, i32, i32),
        e: int,
    ) -> bool {
        exists|i: int, j: int|
            0 <= i < lim && #[trigger] self.entry_content(sel, ts, i, j) && along(
                pixel_x(self.tiles@[i].tx, ts, j),
                pixel_y(self.tiles@[i].ty, ts, j),
                e,
            ) == edge(c, e)
    }

    /// Smallest box (min x, min y, max x, max y), in canvas pixels, holding
    /// every content pixel of the layer; `None` when there is none.
    fn content_bounds<F: Fn(i32, i32) -> bool>(&self, ts: usize, sel: Option<&F>, Ghost(tl): Ghost<nat>) -> (r:
        Option<(i32, i32, i32, i32)>)
        requires
            self.wf(tl),
            tl == ts * ts,
            ts > 0,
            ts <= i32::MAX,
            sel matches Some(f) ==> forall|x: i32, y: i32| call_requires(*f, (x, y)),
            sel matches Some(f) ==> deterministic(*f),
            forall|k: (i32, i32)|
                tile_data(#[trigger] lookup(self.tile_map(), k)) is Some ==> coord_fits(k.0, ts as nat) && coord_fits(
                    k.1,
                    ts as nat,
                ),
        ensures
            forall|tx: i32, ty: i32, j: int|
                #[trigger] tile_content(sel, ts as nat, tx, ty, lookup(self.tile_map(), (tx, ty)), j) ==> (r matches Some(
                    c,
                ) && encloses(c, pixel_x(tx, ts as nat, j), pixel_y(ty, ts as nat, j))),
            r matches Some(c) ==> forall|e: int|
                0 <= e < 4 ==> #[trigger] map_edge_met(sel, ts as nat, self.tile_map(), c, e),
    {
        let ghost tsn = ts as nat;
        let n = self.tiles.len();
        let mut acc: Option<(i32, i32, i32, i32)> = None;
        let mut i: usize = 0;
        while i < n
            invariant
                n == self.tiles@.len(),
                i <= n,
                self.wf(tl),
                tl == ts * ts,
                tsn == ts,
                ts > 0,
                ts <= i32::MAX,
                sel matches Some(f) ==> forall|x: i32, y: i32| call_requires(*f, (x, y)),
                sel matches Some(f) ==> deterministic(*f),
                forall|k: (i32, i32)|
                    tile_data(#[trigger] lookup(self.tile_map(), k)) is Some ==> coord_fits(k.0, tsn) && coord_fits(
                        k.1,
                        tsn,
                    ),
                forall|i2: int, j: int|
                    0 <= i2 < i && #[trigger] self.entry_content(sel, tsn, i2, j) ==> (acc matches Some(c) && encloses(
                        c,
                        pixel_x(self.tiles@[i2].tx, tsn, j),
                        pixel_y(self.tiles@[i2].ty, tsn, j),
                    )),
                acc matches Some(c) ==> forall|e: int| 0 <= e < 4 ==> #[trigger] self.edge_met(sel, tsn, i as int, c, e),
            decreases n - i,
        {
            let tx = self.tiles[i].tx;
            let ty = self.tiles[i].ty;
            let ghost old_acc = acc;
            proof {
                self.lemma_map_at(tl, i as int);
                assert(self.key_at(i as int) == (tx, ty));
            }
            match &self.tiles[i].cell.data {
                Some(d) => {
                    proof {
                        assert(tile_data(lookup(self.tile_map(), (tx, ty))) == Some(d@));
                        assert(tile_ok(self.tiles@[i as int].cell@, tl));
                    }
                    let next = tile_bounds(d, ts, tx, ty, sel, acc);
                    acc = next;
                    proof {
                        assert forall|i2: int, j: int|
                            0 <= i2 < i + 1 && #[trigger] self.entry_content(sel, tsn, i2, j) implies (acc matches Some(
                            c,
                        ) && encloses(c, pixel_x(self.tiles@[i2].tx, tsn, j), pixel_y(self.tiles@[i2].ty, tsn, j))) by {
                            if i2 == i {
                                assert(content_at(sel, tsn, tx, ty, d@, j));
                            }
                        }
                        if let Some(c) = acc {
                            assert forall|e: int| 0 <= e < 4 implies #[trigger] self.edge_met(
                                sel,
                                tsn,
                                i + 1,
                                c,
                                e,
                            ) by {
                                if from_acc(old_acc, c, e) {
                                    let b = old_acc->0;
                                    assert(self.edge_met(sel, tsn, i as int, b, e));
                                    let (wi, wj) = choose|wi: int, wj: int|
                                        0 <= wi < i && #[trigger] self.entry_content(sel, tsn, wi, wj) && along(
                                            pixel_x(self.tiles@[wi].tx, tsn, wj),
                                            pixel_y(self.tiles@[wi].ty, tsn, wj),
                                            e,
                                        ) == edge(b, e);
                                    assert(self.entry_content(sel, tsn, wi, wj));
                                } else {
                                    let wj = choose|wj: int|
                                        #[trigger] content_at(sel, tsn, tx, ty, d@, wj) && along(
                                            pixel_x(tx, tsn, wj),
                                            pixel_y(ty, tsn, wj),
                                            e,
                                        ) == edge(c, e);
                                    assert(self.entry_content(sel, tsn, i as int, wj));
                                }
                            }
                        }
                    }
                },
                None => {
                    proof {
                        if let Some(c) = acc {
                            assert forall|e: int| 0 <= e < 4 implies #[trigger] self.edge_met(
                                sel,
                                tsn,
                                i + 1,
                                c,
                                e,
                            ) by {
                                assert(self.edge_met(sel, tsn, i as int, c, e));
                                let (wi, wj) = choose|wi: int, wj: int|
                                    0 <= wi < i && #[trigger] self.entry_content(sel, tsn, wi, wj) && along(
                                        pixel_x(self.tiles@[wi].tx, tsn, wj),
                                        pixel_y(self.tiles@[wi].ty, tsn, wj),
                                        e,
                                    ) == edge(c, e);
                                assert(self.entry_content(sel, tsn, wi, wj));
                            }
                        }
                    }
                },
            }
            i = i + 1;
        }
        proof {
            assert forall|tx: i32, ty: i32, j: int|
                #[trigger] tile_content(sel, tsn, tx, ty, lookup(self.tile_map(), (tx, ty)), j) implies (acc matches Some(
                c,
            ) && encloses(c, pixel_x(tx, tsn, j), pixel_y(ty, tsn, j))) by {
                let k = (tx, ty);
                assert(self.has_key(k));
                let m = self.index_of(k);
                self.lemma_map_at(tl, m);
                assert(self.entry_content(sel, tsn, m, j));
            }
            if let Some(c) = acc {
                assert forall|e: int| 0 <= e < 4 implies #[trigger] map_edge_met(sel, tsn, self.tile_map(), c, e) by {
                    assert(self.edge_met(sel, tsn, n as int, c, e));
                    let (wi, wj) = choose|wi: int, wj: int|
                        0 <= wi < n && #[trigger] self.entry_content(sel, tsn, wi, wj) && along(
                            pixel_x(self.tiles@[wi].tx, tsn, wj),
                            pixel_y(self.tiles@[wi].ty, tsn, wj),
                            e,
                        ) == edge(c, e);
                    self.lemma_map_at(tl, wi);
                    let wx = self.tiles@[wi].tx;
                    let wy = self.tiles@[wi].ty;
                    assert(lookup(self.tile_map(), (wx, wy)) == Some(self.tiles@[wi].cell@));
                    assert(tile_content(sel, tsn, wx, wy, lookup(self.tile_map(), (wx, wy)), wj));
                }
            }
        }
        acc
    }

    /// Position of the entry with the given coordinates, if any.
    fn find(&self, tx: i32, ty: i32) -> (r: Option<usize>)
        ensures
            r matches Some(i) ==> i < self.tiles@.len() && self.key_at(i as int) == (tx, ty),
            r is None ==> !self.has_key((tx, ty)),
    {
        let mut i: usize = 0;
        while i < self.tiles.len()
            invariant
                i <= self.tiles@.len(),
                forall|j: int| 0 <= j < i ==> self.key_at(j) != (tx, ty),
            decreases self.tiles@.len() - i,
        {
            if self.tiles[i].tx == tx && self.tiles[i].ty == ty {
                return Some(i);
            }
            i = i + 1;
        }
        None
    }
}

} // verus!

verus! {

/// What a canvas holds: its geometry, background colour, layer list, the
/// active layer and every allocated tile keyed by (layer, tx, ty).
pub struct CanvasView {
    pub width: nat,
    pub height: nat,
    pub tile_size: nat,
    pub tiles_x: nat,
    pub tiles_y: nat,
    pub clear_color: Pixel,
    pub layers: Seq<LayerInfo>,
    pub active_layer_idx: nat,
    pub tiles: Map<(int, i32, i32), TileView>,
}

/// Number of tiles of edge `tile` needed to cover `len` pixels.
pub open spec fn tiles_needed(len: nat, tile: nat) -> nat {
    ((len + tile - 1) as nat / tile) as nat
}

impl CanvasView {
    pub open spec fn tile_len(self) -> nat {
        self.tile_size * self.tile_size
    }

    /// Colour of a freshly allocated tile of `layer`: the background colour
    /// for the bottom layer, transparent for the others.
    pub open spec fn fill(self, layer: int) -> Pixel {
        if layer == 0 {
            self.clear_color
        } else {
            transparent()
        }
    }

    pub open spec fn tile(self, layer: int, tx: i32, ty: i32) -> Option<TileView> {
        lookup(self.tiles, (layer, tx, ty))
    }

    /// Edge `e` of the box `c` lies on a content pixel of layer `layer`.
    pub open spec fn content_edge_met<F: Fn(i32, i32) -> bool>(
        self,
        layer: int,
        sel: Option<&F>,
        c: (i32, i32, i32, i32),
        e: int,
    ) -> bool {
        exists|tx: i32, ty: i32, j: int|
            #[trigger] tile_content(sel, self.tile_size, tx, ty, self.tile(layer, tx, ty), j) && along(
                pixel_x(tx, self.tile_size, j),
                pixel_y(ty, self.tile_size, j),
                e,
            ) == edge(c, e)
    }

    /// The pixels a tile shows: its buffer, or the layer's fill colour when
    /// no buffer was allocated.
    pub open spec fn pixels(self, layer: int, tx: i32, ty: i32) -> Seq<Pixel> {
        match self.tile(layer, tx, ty) {
            Some(t) => match t.data {
                Some(d) => d,
                None => filled(self.tile_len(), self.fill(layer)),
            },
            None => filled(self.tile_len(), self.fill(layer)),
        }
    }

    /// The tile after making sure it has a buffer.
    pub open spec fn ensured_tile(self, layer: int, tx: i32, ty: i32) -> TileView {
        ensured(self.tile(layer, tx, ty), self.fill(layer), self.tile_len())
    }

    pub open spec fn with_tile(self, layer: int, tx: i32, ty: i32, t: TileView) -> CanvasView {
        CanvasView { tiles: self.tiles.insert((layer, tx, ty), t), ..self }
    }

    /// Reading a tile after writing its buffer gives the written pixels;
    /// every other tile reads as before.
    pub proof fn lemma_read_after_write(self, l: int, tx: i32, ty: i32, d: Seq<Pixel>, l2: int, tx2: i32, ty2: i32)
        ensures
            tile_data(self.with_tile(l, tx, ty, TileView { data: Some(d), is_empty: all_transparent(d) }).tile(
                l2,
                tx2,
                ty2,
            )) == if l2 == l && tx2 == tx && ty2 == ty {
                Some(d)
            } else {
                tile_data(self.tile(l2, tx2, ty2))
            },
    {
    }

    /// A tile given a buffer where it had none holds a full tile of pixels:
    /// transparent ones, the tile marked empty, on every layer above the
    /// background, and the background colour on the background layer.
    pub proof fn lemma_fresh_buffer(self, l: int, tx: i32, ty: i32)
        requires
            tile_data(self.tile(l, tx, ty)) is None,
        ensures
            ({
                let t = self.ensure_tile(l, tx, ty).tile(l, tx, ty);
                let clear = Pixel { r: 0, g: 0, b: 0, a: 0 };
                let want = if l == 0 { self.clear_color } else { clear };
                &&& t matches Some(tv) && tv.data matches Some(d) && d.len() == self.tile_size * self.tile_size
                    && (forall|i: int| 0 <= i < d.len() ==> d[i] == want)
                &&& l != 0 ==> (t matches Some(tv) && tv.is_empty)
            }),
    {
    }

    /// Making sure a tile has a buffer a second time changes nothing, and
    /// the buffer it gets keeps any pixels it already had.
    pub proof fn lemma_ensure_idempotent(self, l: int, tx: i32, ty: i32)
        ensures
            self.ensure_tile(l, tx, ty).ensure_tile(l, tx, ty) == self.ensure_tile(l, tx, ty),
            tile_data(self.tile(l, tx, ty)) is Some ==> self.ensure_tile(l, tx, ty).tile(l, tx, ty) == self.tile(
                l,
                tx,
                ty,
            ),
    {
        let once = self.ensure_tile(l, tx, ty);
        assert(once.ensure_tile(l, tx, ty).tiles =~= once.tiles);
    }

    /// The canvas after making sure a tile of an existing layer has a buffer.
    pub open spec fn ensure_tile(self, layer: int, tx: i32, ty: i32) -> CanvasView {
        self.with_tile(layer, tx, ty, self.ensured_tile(layer, tx, ty))
    }

    /// A tile after making sure it has a buffer shows the same pixels as
    /// before, now held in its buffer.
    pub proof fn lemma_ensured_pixels(self, layer: int, tx: i32, ty: i32)
        ensures
            self.ensured_tile(layer, tx, ty).data == Some(self.pixels(layer, tx, ty)),
            self.ensure_tile(layer, tx, ty).pixels(layer, tx, ty) == self.pixels(layer, tx, ty),
    {
    }

    /// A tile marked empty holds only transparent pixels in its buffer.
    pub proof fn lemma_empty_flag(self, l: int, tx: i32, ty: i32)
        requires
            self.wf(),
        ensures
            match self.tile(l, tx, ty) {
                Some(t) => t.is_empty && t.data is Some ==> all_transparent(t.data->0),
                None => true,
            },
    {
        if self.tiles.dom().contains((l, tx, ty)) {
            assert(tile_ok(self.tiles[(l, tx, ty)], self.tile_len()));
        }
    }

    pub open spec fn wf(self) -> bool {
        &&& self.tile_size > 0
        &&& self.tile_len() <= usize::MAX
        &&& forall|k: (int, i32, i32)| #[trigger]
            self.tiles.dom().contains(k) ==> 0 <= k.0 < self.layers.len() && tile_ok(
                self.tiles[k],
                self.tile_len(),
            )
    }
}

/// Main drawing surface that owns the layers, their tile grids and the
/// background colour.
pub struct Canvas {
    width: usize,
    height: usize,
    tile_size: usize,
    tiles_x: usize,
    tiles_y: usize,
    clear_color: Pixel,
    layers: Vec<Layer>,
    active_layer_idx: usize,
}

impl View for Canvas {
    type V = CanvasView;

    closed spec fn view(&self) -> CanvasView {
        CanvasView {
            width: self.width as nat,
            height: self.height as nat,
            tile_size: self.tile_size as nat,
            tiles_x: self.tiles_x as nat,
            tiles_y: self.tiles_y as nat,
            clear_color: self.clear_color,
            layers: self.layers@.map_values(|l: Layer| l.info()),
            active_layer_idx: self.active_layer_idx as nat,
            tiles: Map::new(
                |k: (int, i32, i32)|
                    0 <= k.0 < self.layers@.len() && self.layers@[k.0].tile_map().dom().contains(
                        (k.1, k.2),
                    ),
                |k: (int, i32, i32)| self.layers@[k.0].tile_map()[(k.1, k.2)],
            ),
        }
    }
}

impl Canvas {
    /// Internal consistency: a non-zero tile edge whose square fits in
    /// memory, and per layer unique tile coordinates and full-size buffers,
    /// a tile marked empty holding only transparent pixels.
    pub closed spec fn wf(&self) -> bool {
        &&& self.tile_size > 0
        &&& self.tile_size * self.tile_size <= usize::MAX
        &&& self.tile_size * self.tile_size * 4 <= isize::MAX
        &&& forall|l: int|
            0 <= l < self.layers@.len() ==> (#[trigger] self.layers@[l]).wf(
                (self.tile_size * self.tile_size) as nat,
            )
    }

    pub proof fn lemma_view_wf(&self)
        requires
            self.wf(),
        ensures
            self@.wf(),
            self@.tile_size <= i32::MAX,
    {
        assert(self.tile_size <= i32::MAX) by (nonlinear_arith)
            requires
                self.tile_size * self.tile_size * 4 <= isize::MAX,
                isize::MAX <= 0x7fff_ffff_ffff_ffff,
        ;
        let tl = (self.tile_size * self.tile_size) as nat;
        assert forall|k: (int, i32, i32)| #[trigger] self@.tiles.dom().contains(k) implies 0 <= k.0
            < self@.layers.len() && tile_ok(self@.tiles[k], self@.tile_len()) by {
            self.layers@[k.0].lemma_map_wf(tl);
        }
    }

    /// Replacing layer `l` by a layer with the same description and tiles
    /// leaves the canvas view unchanged.
    proof fn lemma_layer_same(old_c: Canvas, new_c: Canvas, l: int)
        requires
            0 <= l < old_c.layers@.len(),
            new_c.layers@ == old_c.layers@.update(l, new_c.layers@[l]),
            new_c.layers@[l].info() == old_c.layers@[l].info(),
            new_c.layers@[l].tile_map() == old_c.layers@[l].tile_map(),
            new_c.width == old_c.width,
            new_c.height == old_c.height,
            new_c.tile_size == old_c.tile_size,
            new_c.tiles_x == old_c.tiles_x,
            new_c.tiles_y == old_c.tiles_y,
            new_c.clear_color == old_c.clear_color,
            new_c.active_layer_idx == old_c.active_layer_idx,
        ensures
            new_c@ == old_c@,
    {
        assert(new_c@.layers =~= old_c@.layers);
        assert(new_c@.tiles =~= old_c@.tiles);
    }

    /// Replacing layer `l` by a layer with the same description whose tile
    /// map gained the tile `t` at `(tx, ty)` adds exactly that tile.
    proof fn lemma_layer_update(
        old_c: Canvas,
        new_c: Canvas,
        l: int,
        tx: i32,
        ty: i32,
        t: TileView,
    )
        requires
            0 <= l < old_c.layers@.len(),
            new_c.layers@ == old_c.layers@.update(l, new_c.layers@[l]),
            new_c.layers@[l].info() == old_c.layers@[l].info(),
            new_c.layers@[l].tile_map() == old_c.layers@[l].tile_map().insert((tx, ty), t),
            new_c.width == old_c.width,
            new_c.height == old_c.height,
            new_c.tile_size == old_c.tile_size,
            new_c.tiles_x == old_c.tiles_x,
            new_c.tiles_y == old_c.tiles_y,
            new_c.clear_color == old_c.clear_color,
            new_c.active_layer_idx == old_c.active_layer_idx,
        ensures
            new_c@ == old_c@.with_tile(l, tx, ty, t),
    {
        assert(new_c@.layers =~= old_c@.layers);
        assert(new_c@.tiles =~= old_c@.tiles.insert((l, tx, ty), t));
    }
}


impl Canvas {
    /// Copy of the canvas geometry and layers with the same tiles.
    pub open spec fn same_except_tiles(a: CanvasView, b: CanvasView) -> bool {
        &&& a.width == b.width
        &&& a.height == b.height
        &&& a.tile_size == b.tile_size
        &&& a.tiles_x == b.tiles_x
        &&& a.tiles_y == b.tiles_y
        &&& a.clear_color == b.clear_color
        &&& a.layers == b.layers
        &&& a.active_layer_idx == b.active_layer_idx
    }

    /// Create a new canvas with a single background layer, locked and
    /// active, and no tile allocated. `clear_color` is the premultiplied
    /// colour shown where the background layer has no buffer.
    pub fn new(width: usize, height: usize, clear_color: Pixel, tile_size: usize) -> (c: Canvas)
        requires
            tile_size > 0,
            width + tile_size <= usize::MAX,
            height + tile_size <= usize::MAX,
            tile_size * tile_size * 4 <= isize::MAX,
        ensures
            c.wf(),
            c@.width == width,
            c@.height == height,
            c@.tile_size == tile_size,
            c@.tiles_x == tiles_needed(width as nat, tile_size as nat),
            c@.tiles_y == tiles_needed(height as nat, tile_size as nat),
            c@.clear_color == clear_color,
            c@.layers.len() == 1,
            c@.layers[0] == (LayerInfo {
                name: "Background"@,
                visible: true,
                opacity_bits: FULL_OPACITY_BITS,
                locked: true,
            }),
            c@.active_layer_idx == 0,
            c@.tiles == Map::<(int, i32, i32), TileView>::empty(),
    {
        let tiles_x = (width + tile_size - 1) / tile_size;
        let tiles_y = (height + tile_size - 1) / tile_size;
        let bg_layer = Layer::new(String::from_str("Background"), true);
        let mut layers: Vec<Layer> = Vec::new();
        layers.push(bg_layer);
        let c = Canvas {
            width,
            height,
            tile_size,
            tiles_x,
            tiles_y,
            clear_color,
            layers,
            active_layer_idx: 0,
        };
        proof {
            assert forall|k: (int, i32, i32)| !c@.tiles.dom().contains(k) by {
                if 0 <= k.0 < 1 {
                    assert(c.layers@[k.0].tile_map() == Map::<(i32, i32), TileView>::empty());
                }
            }
            assert(c@.tiles =~= Map::<(int, i32, i32), TileView>::empty());
        }
        c
    }

    /// Appends a new empty layer named "Layer <n>", n being the new layer
    /// count, and makes it active.
    pub fn add_layer(&mut self)
        requires
            old(self).wf(),
            old(self)@.layers.len() < usize::MAX,
        ensures
            final(self).wf(),
            final(self)@ == (CanvasView {
                layers: old(self)@.layers.push(
                    LayerInfo {
                        name: "Layer "@ + decimal(old(self)@.layers.len() + 1),
                        visible: true,
                        opacity_bits: FULL_OPACITY_BITS,
                        locked: false,
                    },
                ),
                active_layer_idx: old(self)@.layers.len(),
                ..old(self)@
            }),
    {
        let name = prefixed_number("Layer ", self.layers.len() + 1);
        let layer = Layer::new(name, false);
        self.layers.push(layer);
        self.active_layer_idx = self.layers.len() - 1;
        proof {
            let n = old(self).layers@.len();
            assert(self@.layers =~= old(self)@.layers.push(self.layers@[n as int].info()));
            assert(self@.tiles =~= old(self)@.tiles);
        }
    }

    /// Current canvas width in pixels.
    pub fn width(&self) -> (r: usize)
        ensures
            r == self@.width,
    {
        self.width
    }

    /// Current canvas height in pixels.
    pub fn height(&self) -> (r: usize)
        ensures
            r == self@.height,
    {
        self.height
    }

    /// Colour shown where the background layer has no buffer.
    pub fn clear_color(&self) -> (r: Pixel)
        ensures
            r == self@.clear_color,
    {
        self.clear_color
    }

    /// Index of the active layer.
    pub fn active_layer(&self) -> (r: usize)
        ensures
            r == self@.active_layer_idx,
    {
        self.active_layer_idx
    }

    /// The layer at `i`.
    pub fn layer(&self, i: usize) -> (r: &Layer)
        requires
            i < self@.layers.len(),
        ensures
            r.info() == self@.layers[i as int],
    {
        &self.layers[i]
    }

    /// Set the name, visibility, opacity and lock of layer `i`, keeping its
    /// tiles; false, changing nothing, when there is no such layer.
    pub fn set_layer_info(&mut self, i: usize, name: String, visible: bool, opacity_bits: u32, locked: bool) -> (done: bool)
        requires
            old(self).wf(),
        ensures
            final(self).wf(),
            done == (i < old(self)@.layers.len()),
            done ==> final(self)@ == (CanvasView {
                layers: old(self)@.layers.update(
                    i as int,
                    LayerInfo { name: name@, visible, opacity_bits, locked },
                ),
                ..old(self)@
            }),
            !done ==> final(self)@ == old(self)@,
    {
        if i >= self.layers.len() {
            return false;
        }
        let ghost old_c = *self;
        self.layers[i].set_info(name, visible, opacity_bits, locked);
        proof {
            let li = i as int;
            assert(self.layers@ =~= old_c.layers@.update(li, self.layers@[li]));
            assert forall|m: int| 0 <= m < self.layers@.len() implies (#[trigger] self.layers@[m]).wf(
                (self.tile_size * self.tile_size) as nat,
            ) by {
                if m != li {
                    assert(self.layers@[m] == old_c.layers@[m]);
                } else {
                    assert(old_c.layers@[m].wf((self.tile_size * self.tile_size) as nat));
                }
            }
            assert(self@.layers =~= old_c@.layers.update(
                li,
                LayerInfo { name: self.layers@[li].name@, visible, opacity_bits, locked },
            ));
            assert(self@.tiles =~= old_c@.tiles);
        }
        true
    }

    /// Make layer `i` the active one; false, changing nothing, when there is
    /// no such layer.
    pub fn set_active_layer(&mut self, i: usize) -> (done: bool)
        requires
            old(self).wf(),
        ensures
            final(self).wf(),
            done == (i < old(self)@.layers.len()),
            done ==> final(self)@ == (CanvasView { active_layer_idx: i as nat, ..old(self)@ }),
            !done ==> final(self)@ == old(self)@,
    {
        if i >= self.layers.len() {
            return false;
        }
        self.active_layer_idx = i;
        proof {
            assert(self@.layers =~= old(self)@.layers);
            assert(self@.tiles =~= old(self)@.tiles);
        }
        true
    }

    /// Number of layers.
    pub fn layer_count(&self) -> (r: usize)
        ensures
            r == self@.layers.len(),
    {
        self.layers.len()
    }

    /// Size of a tile edge in pixels.
    pub fn tile_size(&self) -> (r: usize)
        ensures
            r == self@.tile_size,
    {
        self.tile_size
    }

    /// Ensure a tile of a layer has a buffer; `None` when there is no such
    /// layer, else the position of its entry in the layer.
    fn ensure_layer_tile(&mut self, layer_idx: usize, tx: i32, ty: i32) -> (r: Option<usize>)
        requires
            old(self).wf(),
        ensures
            final(self).wf(),
            layer_idx < old(self)@.layers.len() ==> r is Some && final(self)@ == old(self)@.ensure_tile(
                layer_idx as int,
                tx,
                ty,
            ),
            layer_idx >= old(self)@.layers.len() ==> r is None && final(self)@ == old(self)@,
            r matches Some(i) ==> i < final(self).layers@[layer_idx as int].entry_count()
                && final(self).layers@[layer_idx as int].key_at(i as int) == (tx, ty),
            final(self).layers@.len() == old(self).layers@.len(),
    {
        if layer_idx >= self.layers.len() {
            return None;
        }
        let fill = if layer_idx == 0 {
            self.clear_color
        } else {
            Pixel::transparent()
        };
        let tl = self.tile_size * self.tile_size;
        let ghost old_c = *self;
        let i = self.layers[layer_idx].ensure(tx, ty, fill, tl);
        proof {
            let l = layer_idx as int;
            assert(lookup(old_c.layers@[l].tile_map(), (tx, ty)) == old_c@.tile(l, tx, ty));
            Canvas::lemma_layer_update(old_c, *self, l, tx, ty, old_c@.ensured_tile(l, tx, ty));
            assert forall|m: int| 0 <= m < self.layers@.len() implies (#[trigger] self.layers@[m]).wf(
                (self.tile_size * self.tile_size) as nat,
            ) by {
                if m != l {
                    assert(self.layers@[m] == old_c.layers@[m]);
                }
            }
        }
        Some(i)
    }

    /// The tile holding canvas pixel (x, y) and the pixel's position in the
    /// tile's buffer (rows first); `None` outside the canvas.
    pub fn index(&self, x: i32, y: i32) -> (r: Option<(usize, usize, usize)>)
        requires
            self.wf(),
        ensures
            r is Some <==> 0 <= x < self@.width && 0 <= y < self@.height,
            r matches Some(t) ==> {
                let ts = self@.tile_size as int;
                &&& t.0 == (x as int) / ts
                &&& t.1 == (y as int) / ts
                &&& t.2 == ((y as int) % ts) * ts + (x as int) % ts
                &&& t.2 < self@.tile_len()
            },
    {
        if x < 0 || y < 0 {
            return None;
        }
        let ux = x as usize;
        let uy = y as usize;
        if ux >= self.width || uy >= self.height {
            return None;
        }
        let ts = self.tile_size;
        let local_x = ux % ts;
        let local_y = uy % ts;
        proof {
            assert(local_y * ts + local_x < ts * ts) by (nonlinear_arith)
                requires
                    local_y < ts,
                    local_x < ts,
            ;
        }
        Some((ux / ts, uy / ts, local_y * ts + local_x))
    }

    /// Guarantee a tile exists on the active layer.
    pub fn ensure_tile_exists(&mut self, tx: usize, ty: usize)
        requires
            old(self).wf(),
        ensures
            final(self).wf(),
            final(self)@ == if old(self)@.active_layer_idx < old(self)@.layers.len() {
                old(self)@.ensure_tile(old(self)@.active_layer_idx as int, tx as i32, ty as i32)
            } else {
                old(self)@
            },
    {
        let idx = self.active_layer_idx;
        let _ = self.ensure_layer_tile(idx, tx as i32, ty as i32);
    }

    /// Guarantee a tile exists on the specified layer.
    pub fn ensure_layer_tile_exists(&mut self, layer_idx: usize, tx: usize, ty: usize)
        requires
            old(self).wf(),
        ensures
            final(self).wf(),
            final(self)@ == if layer_idx < old(self)@.layers.len() {
                old(self)@.ensure_tile(layer_idx as int, tx as i32, ty as i32)
            } else {
                old(self)@
            },
    {
        let _ = self.ensure_layer_tile(layer_idx, tx as i32, ty as i32);
    }

    /// Guarantee a tile exists on the specified layer (signed coordinates).
    pub fn ensure_layer_tile_exists_i32(&mut self, layer_idx: usize, tx: i32, ty: i32)
        requires
            old(self).wf(),
        ensures
            final(self).wf(),
            final(self)@ == if layer_idx < old(self)@.layers.len() {
                old(self)@.ensure_tile(layer_idx as int, tx, ty)
            } else {
                old(self)@
            },
    {
        let _ = self.ensure_layer_tile(layer_idx, tx, ty);
    }

    /// Copy of the buffer of a tile of a layer; `None` when the layer or
    /// the tile does not exist or the tile has no buffer.
    pub fn get_layer_tile_data(&self, layer_idx: usize, tx: i32, ty: i32) -> (r: Option<Vec<Pixel>>)
        requires
            self.wf(),
        ensures
            opt_seq(r) == tile_data(self@.tile(layer_idx as int, tx, ty)),
    {
        if layer_idx >= self.layers.len() {
            return None;
        }
        let tl = Ghost((self.tile_size * self.tile_size) as nat);
        let r = self.layers[layer_idx].data_copy(tx, ty, tl);
        proof {
            assert(lookup(self.layers@[layer_idx as int].tile_map(), (tx, ty)) == self@.tile(
                layer_idx as int,
                tx,
                ty,
            ));
        }
        r
    }

    /// Emptiness flag of a tile of a layer; `None` when the layer or the
    /// tile does not exist.
    /// Whether the tile (tx, ty) of layer `layer_idx` exists with a pixel
    /// buffer.
    pub fn layer_tile_has_data(&self, layer_idx: usize, tx: i32, ty: i32) -> (r: bool)
        requires
            self.wf(),
        ensures
            r == tile_data(self@.tile(layer_idx as int, tx, ty)) is Some,
    {
        if layer_idx >= self.layers.len() {
            return false;
        }
        let tl = Ghost((self.tile_size * self.tile_size) as nat);
        let r = self.layers[layer_idx].has_data(tx, ty, tl);
        proof {
            assert(lookup(self.layers@[layer_idx as int].tile_map(), (tx, ty)) == self@.tile(
                layer_idx as int,
                tx,
                ty,
            ));
        }
        r
    }

    pub fn layer_tile_is_empty(&self, layer_idx: usize, tx: i32, ty: i32) -> (r: Option<bool>)
        requires
            self.wf(),
        ensures
            r == (match self@.tile(layer_idx as int, tx, ty) {
                Some(t) => Some(t.is_empty),
                None => None,
            }),
    {
        if layer_idx >= self.layers.len() {
            return None;
        }
        let tl = Ghost((self.tile_size * self.tile_size) as nat);
        let r = self.layers[layer_idx].empty_flag(tx, ty, tl);
        proof {
            assert(lookup(self.layers@[layer_idx as int].tile_map(), (tx, ty)) == self@.tile(
                layer_idx as int,
                tx,
                ty,
            ));
        }
        r
    }

    /// Overwrite a tile's pixel buffer for a given layer, creating the tile
    /// if needed; the tile counts as empty exactly when every new pixel is
    /// transparent. Nothing happens when the layer does not exist.
    pub fn set_layer_tile_data(&mut self, layer_idx: usize, tx: i32, ty: i32, data: Vec<Pixel>)
        requires
            old(self).wf(),
            data@.len() == old(self)@.tile_len(),
        ensures
            final(self).wf(),
            final(self)@ == if layer_idx < old(self)@.layers.len() {
                old(self)@.with_tile(
                    layer_idx as int,
                    tx,
                    ty,
                    TileView { data: Some(data@), is_empty: all_transparent(data@) },
                )
            } else {
                old(self)@
            },
    {
        proof {
            self.lemma_view_wf();
        }
        let ghost d = data@;
        match self.ensure_layer_tile(layer_idx, tx, ty) {
            Some(i) => {
                let is_empty = is_all_transparent(&data);
                let tl = Ghost((self.tile_size * self.tile_size) as nat);
                let ghost mid = *self;
                let _ = self.layers[layer_idx].replace_cell(i, TileCell { data: Some(data), is_empty }, tl);
                proof {
                    let l = layer_idx as int;
                    let t = TileView { data: Some(d), is_empty: all_transparent(d) };
                    Canvas::lemma_layer_update(mid, *self, l, tx, ty, t);
                    assert forall|m: int| 0 <= m < self.layers@.len() implies (#[trigger] self.layers@[m]).wf(
                        (self.tile_size * self.tile_size) as nat,
                    ) by {
                        if m != l {
                            assert(self.layers@[m] == mid.layers@[m]);
                        }
                    }
                    assert(self@.tiles =~= old(self)@.tiles.insert((l, tx, ty), t));
                }
            },
            None => {},
        }
    }

    /// Mark an existing tile of the active layer as holding content.
    pub fn mark_tile_dirty(&mut self, tx: usize, ty: usize)
        requires
            old(self).wf(),
        ensures
            final(self).wf(),
            final(self)@ == (match old(self)@.tile(old(self)@.active_layer_idx as int, tx as i32, ty as i32) {
                Some(t) => old(self)@.with_tile(
                    old(self)@.active_layer_idx as int,
                    tx as i32,
                    ty as i32,
                    TileView { data: t.data, is_empty: false },
                ),
                None => old(self)@,
            }),
    {
        let l = self.active_layer_idx;
        if l >= self.layers.len() {
            return;
        }
        let tl = Ghost((self.tile_size * self.tile_size) as nat);
        let ghost old_c = *self;
        let ktx = tx as i32;
        let kty = ty as i32;
        self.layers[l].mark_not_empty(ktx, kty, tl);
        proof {
            let li = l as int;
            match lookup(old_c.layers@[li].tile_map(), (ktx, kty)) {
                Some(t) => {
                    Canvas::lemma_layer_update(old_c, *self, li, ktx, kty, TileView { data: t.data, is_empty: false });
                },
                None => {
                    Canvas::lemma_layer_same(old_c, *self, li);
                },
            }
            assert forall|m: int| 0 <= m < self.layers@.len() implies (#[trigger] self.layers@[m]).wf(
                (self.tile_size * self.tile_size) as nat,
            ) by {
                if m != li {
                    assert(self.layers@[m] == old_c.layers@[m]);
                }
            }
        }
    }

    /// Clears the active layer: every buffer of it is dropped, its tiles
    /// staying, marked empty. Clearing the background layer also sets the
    /// background colour to `color` (premultiplied); any other layer becomes
    /// transparent and the background colour is kept.
    pub fn clear(&mut self, color: Pixel)
        requires
            old(self).wf(),
        ensures
            final(self).wf(),
            final(self)@ == (CanvasView {
                clear_color: if old(self)@.active_layer_idx == 0 {
                    color
                } else {
                    old(self)@.clear_color
                },
                tiles: Map::new(
                    |k: (int, i32, i32)| old(self)@.tiles.dom().contains(k),
                    |k: (int, i32, i32)|
                        if k.0 == old(self)@.active_layer_idx {
                            TileView { data: None, is_empty: true }
                        } else {
                            old(self)@.tiles[k]
                        },
                ),
                ..old(self)@
            }),
    {
        if self.active_layer_idx == 0 {
            self.clear_color = color;
        }
        let l = self.active_layer_idx;
        let ghost mid = *self;
        if l < self.layers.len() {
            let tl = Ghost((self.tile_size * self.tile_size) as nat);
            self.layers[l].clear_all(tl);
            proof {
                assert forall|m: int| 0 <= m < self.layers@.len() implies (#[trigger] self.layers@[m]).wf(
                    (self.tile_size * self.tile_size) as nat,
                ) by {
                    if m != l as int {
                        assert(self.layers@[m] == mid.layers@[m]);
                    }
                }
                assert forall|m: int| 0 <= m < self.layers@.len() && m != l as int implies self.layers@[m]
                    == mid.layers@[m] by {}
            }
        }
        proof {
            assert(self@.layers =~= old(self)@.layers);
            assert(self@.tiles =~= Map::new(
                |k: (int, i32, i32)| old(self)@.tiles.dom().contains(k),
                |k: (int, i32, i32)|
                    if k.0 == old(self)@.active_layer_idx {
                        TileView { data: None, is_empty: true }
                    } else {
                        old(self)@.tiles[k]
                    },
            ));
        }
    }

    /// Copies of every allocated buffer of a layer with its tile
    /// coordinates (no coordinates twice); empty for a missing layer.
    pub fn capture_layer_pixels(&self, layer_idx: usize) -> (r: Vec<((i32, i32), Vec<Pixel>)>)
        requires
            self.wf(),
        ensures
            forall|a: int, b: int| 0 <= a < b < r@.len() ==> r@[a].0 != r@[b].0,
            forall|a: int|
                0 <= a < r@.len() ==> tile_data(self@.tile(layer_idx as int, r@[a].0.0, r@[a].0.1))
                    == Some(#[trigger] r@[a].1@),
            forall|tx: i32, ty: i32|
                tile_data(#[trigger] self@.tile(layer_idx as int, tx, ty)) is Some ==> exists|a: int|
                    0 <= a < r@.len() && r@[a].0 == (tx, ty),
    {
        if layer_idx >= self.layers.len() {
            return Vec::new();
        }
        let tl = Ghost((self.tile_size * self.tile_size) as nat);
        let r = self.layers[layer_idx].capture(tl);
        proof {
            let l = layer_idx as int;
            assert forall|tx: i32, ty: i32| self@.tile(l, tx, ty) == lookup(self.layers@[l].tile_map(), (tx, ty)) by {}
            assert forall|a: int|
                0 <= a < r@.len() implies tile_data(self@.tile(l, r@[a].0.0, r@[a].0.1)) == Some(
                #[trigger] r@[a].1@,
            ) by {
                assert(self@.tile(l, r@[a].0.0, r@[a].0.1) == lookup(self.layers@[l].tile_map(), r@[a].0));
            }
            assert forall|tx: i32, ty: i32|
                tile_data(#[trigger] self@.tile(l, tx, ty)) is Some implies exists|a: int|
                0 <= a < r@.len() && r@[a].0 == (tx, ty) by {
                assert(self@.tile(l, tx, ty) == lookup(self.layers@[l].tile_map(), (tx, ty)));
            }
        }
        r
    }
}

impl Canvas {
    /// Swaps a rectangle of a tile of a layer with a region buffer: the tile
    /// is given a buffer if it has none, the rectangle's pixels are copied
    /// out, the region buffer's rows are copied in, the tile is marked empty
    /// exactly when all its pixels are then transparent, and the region
    /// buffer is replaced by the copied-out pixels. Returns false, changing nothing,
    /// when the layer does not exist.
    pub fn swap_tile_region(
        &mut self,
        layer_idx: usize,
        tx: i32,
        ty: i32,
        x0: usize,
        y0: usize,
        w: usize,
        h: usize,
        region: &mut Vec<Pixel>,
    ) -> (done: bool)
        requires
            old(self).wf(),
            layer_idx < old(self)@.layers.len() ==> region_fits(
                old(self)@.tile_size,
                x0 as nat,
                y0 as nat,
                w as nat,
                h as nat,
                old(region)@.len(),
            ),
        ensures
            final(self).wf(),
            done == (layer_idx < old(self)@.layers.len()),
            done ==> ({
                let p = old(self)@.pixels(layer_idx as int, tx, ty);
                let ts = old(self)@.tile_size;
                &&& final(self)@ == old(self)@.with_tile(
                    layer_idx as int,
                    tx,
                    ty,
                    TileView {
                        data: Some(write_region(p, ts, x0 as nat, y0 as nat, w as nat, h as nat, old(region)@)),
                        is_empty: all_transparent(
                            write_region(p, ts, x0 as nat, y0 as nat, w as nat, h as nat, old(region)@),
                        ),
                    },
                )
                &&& final(region)@ == extract_region(p, ts, x0 as nat, y0 as nat, w as nat, h as nat)
            }),
            !done ==> final(self)@ == old(self)@ && final(region)@ == old(region)@,
    {
        proof {
            self.lemma_view_wf();
            old(self)@.lemma_ensured_pixels(layer_idx as int, tx, ty);
        }
        match self.ensure_layer_tile(layer_idx, tx, ty) {
            Some(i) => {
                let ts = self.tile_size;
                let tl = Ghost((ts * ts) as nat);
                let ghost l = layer_idx as int;
                let ghost mid = *self;
                proof {
                    mid.layers@[l].lemma_map_at(tl@, i as int);
                    assert(mid@.tiles[(l, tx, ty)] == mid.layers@[l].tile_map()[(tx, ty)]);
                }
                let prev = self.layers[layer_idx].replace_cell(i, TileCell { data: None, is_empty: true }, tl);
                let mut data = match prev.data {
                    Some(d) => d,
                    None => {
                        proof {
                            assert(false);
                        }
                        Vec::new()
                    },
                };
                proof {
                    assert(data@ == old(self)@.pixels(l, tx, ty));
                    assert(data@.len() == ts * ts);
                }
                let current = read_region(&data, ts, x0, y0, w, h, region.len());
                write_region_into(&mut data, ts, x0, y0, w, h, region);
                *region = current;
                let is_empty = is_all_transparent(&data);
                let ghost newd = data@;
                let ghost mid2 = *self;
                proof {
                    assert(tile_ok(TileView { data: Some(newd), is_empty }, tl@));
                }
                let _ = self.layers[layer_idx].replace_cell(i, TileCell { data: Some(data), is_empty }, tl);
                proof {
                    let t = TileView { data: Some(newd), is_empty };
                    assert(self.layers@[l].tile_map() == mid.layers@[l].tile_map().insert((tx, ty), t));
                    assert(self.layers@ =~= mid.layers@.update(l, self.layers@[l]));
                    Canvas::lemma_layer_update(mid, *self, l, tx, ty, t);
                    assert forall|m: int| 0 <= m < self.layers@.len() implies (#[trigger] self.layers@[m]).wf(
                        (self.tile_size * self.tile_size) as nat,
                    ) by {
                        if m != l {
                            assert(self.layers@[m] == mid.layers@[m]);
                        }
                    }
                    assert(self@.tiles =~= old(self)@.tiles.insert((l, tx, ty), t));
                }
                true
            },
            None => false,
        }
    }
}

impl Canvas {
    /// Merge a layer into the layer below it and remove it: every tile of
    /// the upper layer that has a buffer and is not marked empty is blended
    /// pixel by pixel over the lower layer's tile (transparent where that
    /// has no buffer) with `blend`, which receives the upper pixel first and
    /// carries the upper layer's opacity. The active layer index is clamped
    /// to the shorter list. Nothing happens for the bottom layer or a
    /// missing layer.
    pub fn merge_layer_down<F: Fn(Pixel, Pixel) -> Pixel>(&mut self, layer_idx: usize, blend: F)
        requires
            old(self).wf(),
            forall|a: Pixel, b: Pixel| call_requires(blend, (a, b)),
        ensures
            final(self).wf(),
            layer_idx == 0 || layer_idx >= old(self)@.layers.len() ==> final(self)@ == old(self)@,
            0 < layer_idx < old(self)@.layers.len() ==> {
                let o = old(self)@;
                let f = final(self)@;
                let l = layer_idx as int;
                let n = (o.layers.len() - 1) as nat;
                &&& f.width == o.width
                &&& f.height == o.height
                &&& f.tile_size == o.tile_size
                &&& f.tiles_x == o.tiles_x
                &&& f.tiles_y == o.tiles_y
                &&& f.clear_color == o.clear_color
                &&& f.layers == o.layers.remove(l)
                &&& f.active_layer_idx == if o.active_layer_idx >= n {
                    (n - 1) as nat
                } else {
                    o.active_layer_idx
                }
                &&& forall|m: int, tx: i32, ty: i32|
                    0 <= m < l - 1 ==> #[trigger] f.tile(m, tx, ty) == o.tile(m, tx, ty)
                &&& forall|m: int, tx: i32, ty: i32|
                    l <= m ==> #[trigger] f.tile(m, tx, ty) == o.tile(m + 1, tx, ty)
                &&& forall|tx: i32, ty: i32|
                    if merges(#[trigger] o.tile(l, tx, ty)) {
                        f.tile(l - 1, tx, ty) is Some && blended(
                            blend,
                            o.tile(l, tx, ty).unwrap().data.unwrap(),
                            merge_base(o.tile(l - 1, tx, ty), o.tile_len()),
                            f.tile(l - 1, tx, ty).unwrap(),
                        )
                    } else {
                        f.tile(l - 1, tx, ty) == o.tile(l - 1, tx, ty)
                    }
            },
    {
        if layer_idx == 0 || layer_idx >= self.layers.len() {
            return;
        }
        let tl = self.tile_size * self.tile_size;
        let ghost l = layer_idx as int;
        let top = self.layers.remove(layer_idx);
        let ghost mid = *self;
        proof {
            assert(top.wf(tl as nat));
            assert(mid.layers@[l - 1] == old(self).layers@[l - 1]);
        }
        self.layers[layer_idx - 1].merge_from(&top, &blend, tl);
        if self.active_layer_idx >= self.layers.len() {
            self.active_layer_idx = self.layers.len() - 1;
        }
        proof {
            let o = old(self)@;
            let f = self@;
            assert forall|m: int| 0 <= m < self.layers@.len() implies (#[trigger] self.layers@[m]).wf(tl as nat) by {
                if m < l - 1 {
                    assert(self.layers@[m] == old(self).layers@[m]);
                } else if m >= l {
                    assert(self.layers@[m] == old(self).layers@[m + 1]);
                }
            }
            assert(f.layers =~= o.layers.remove(l)) by {
                assert forall|m: int| 0 <= m < f.layers.len() implies f.layers[m] == o.layers.remove(l)[m] by {
                    if m < l - 1 {
                        assert(self.layers@[m] == old(self).layers@[m]);
                    } else if m >= l {
                        assert(self.layers@[m] == old(self).layers@[m + 1]);
                    }
                }
            }
            assert forall|m: int, tx: i32, ty: i32| 0 <= m < l - 1 implies #[trigger] f.tile(m, tx, ty) == o.tile(
                m,
                tx,
                ty,
            ) by {
                assert(self.layers@[m] == old(self).layers@[m]);
            }
            assert forall|m: int, tx: i32, ty: i32| l <= m implies #[trigger] f.tile(m, tx, ty) == o.tile(
                m + 1,
                tx,
                ty,
            ) by {
                if m < self.layers@.len() {
                    assert(self.layers@[m] == old(self).layers@[m + 1]);
                }
            }
            assert forall|tx: i32, ty: i32|
                if merges(#[trigger] o.tile(l, tx, ty)) {
                    f.tile(l - 1, tx, ty) is Some && blended(
                        blend,
                        o.tile(l, tx, ty).unwrap().data.unwrap(),
                        merge_base(o.tile(l - 1, tx, ty), o.tile_len()),
                        f.tile(l - 1, tx, ty).unwrap(),
                    )
                } else {
                    f.tile(l - 1, tx, ty) == o.tile(l - 1, tx, ty)
                } by {
                assert(o.tile(l, tx, ty) == lookup(top.tile_map(), (tx, ty)));
                assert(o.tile(l - 1, tx, ty) == lookup(mid.layers@[l - 1].tile_map(), (tx, ty)));
                assert(f.tile(l - 1, tx, ty) == lookup(self.layers@[l - 1].tile_map(), (tx, ty)));
                if merges(lookup(top.tile_map(), (tx, ty))) {
                } else {
                }
            }
        }
    }
}

impl Canvas {
    /// Lift the selected part of the active layer into a new layer named
    /// "Floating Selection" pushed on top and made active: every selected,
    /// non-transparent pixel of a tile with a buffer moves to the same
    /// place on the new layer, which only gets tiles that received pixels.
    /// `contains` tells whether the pixel at canvas coordinates (x, y) is
    /// selected. Returns the new layer's index; `None`, changing nothing,
    /// when there is no selection or no active layer.
    pub fn float_selection<F: Fn(i32, i32) -> bool>(&mut self, has_selection: bool, contains: F) -> (r: Option<usize>)
        requires
            old(self).wf(),
            forall|x: i32, y: i32| call_requires(contains, (x, y)),
            deterministic(contains),
            old(self)@.layers.len() < usize::MAX,
            old(self)@.active_layer_idx < old(self)@.layers.len() ==> forall|tx: i32, ty: i32|
                tile_data(#[trigger] old(self)@.tile(old(self)@.active_layer_idx as int, tx, ty)) is Some
                    ==> coord_fits(tx, old(self)@.tile_size) && coord_fits(ty, old(self)@.tile_size),
        ensures
            final(self).wf(),
            r is Some <==> has_selection && old(self)@.active_layer_idx < old(self)@.layers.len(),
            r is None ==> final(self)@ == old(self)@,
            r matches Some(i) ==> {
                let o = old(self)@;
                let f = final(self)@;
                let a = o.active_layer_idx as int;
                &&& i == o.layers.len()
                &&& f.width == o.width
                &&& f.height == o.height
                &&& f.tile_size == o.tile_size
                &&& f.tiles_x == o.tiles_x
                &&& f.tiles_y == o.tiles_y
                &&& f.clear_color == o.clear_color
                &&& f.active_layer_idx == i
                &&& f.layers == o.layers.push(
                    LayerInfo {
                        name: "Floating Selection"@,
                        visible: true,
                        opacity_bits: FULL_OPACITY_BITS,
                        locked: false,
                    },
                )
                &&& forall|m: int, tx: i32, ty: i32|
                    0 <= m < o.layers.len() && m != a ==> #[trigger] f.tile(m, tx, ty) == o.tile(m, tx, ty)
                &&& forall|tx: i32, ty: i32|
                    (f.tile(a, tx, ty), #[trigger] f.tile(i as int, tx, ty)) == lift_result(
                        contains,
                        o.tile_size,
                        (tx, ty),
                        o.tile(a, tx, ty),
                    )
            },
    {
        if !has_selection {
            return None;
        }
        let a = self.active_layer_idx;
        if a >= self.layers.len() {
            return None;
        }
        proof {
            self.lemma_view_wf();
        }
        let ts = self.tile_size;
        let ghost tl = (ts * ts) as nat;
        let ghost o = *self;
        proof {
            assert forall|k: (i32, i32)|
                tile_data(#[trigger] lookup(o.layers@[a as int].tile_map(), k)) is Some implies coord_fits(
                k.0,
                ts as nat,
            ) && coord_fits(k.1, ts as nat) by {
                assert(o@.tile(a as int, k.0, k.1) == lookup(o.layers@[a as int].tile_map(), k));
            }
        }
        let fl = self.layers[a].lift_selection(ts, &contains, Ghost(tl));
        let ghost mid = *self;
        self.layers.push(fl);
        self.active_layer_idx = self.layers.len() - 1;
        proof {
            let n = o.layers@.len();
            let ai = a as int;
            assert forall|m: int| 0 <= m < self.layers@.len() implies (#[trigger] self.layers@[m]).wf(tl) by {
                if m < n && m != ai {
                    assert(self.layers@[m] == o.layers@[m]);
                }
            }
            assert(self@.layers =~= o@.layers.push(
                LayerInfo {
                    name: "Floating Selection"@,
                    visible: true,
                    opacity_bits: FULL_OPACITY_BITS,
                    locked: false,
                },
            )) by {
                assert forall|m: int| 0 <= m < n && m != ai implies self.layers@[m] == o.layers@[m] by {}
            }
            assert forall|m: int, tx: i32, ty: i32|
                0 <= m < n && m != ai implies #[trigger] self@.tile(m, tx, ty) == o@.tile(m, tx, ty) by {
                assert(self.layers@[m] == o.layers@[m]);
            }
            assert forall|tx: i32, ty: i32|
                (self@.tile(ai, tx, ty), #[trigger] self@.tile(n as int, tx, ty)) == lift_result(
                    contains,
                    o@.tile_size,
                    (tx, ty),
                    o@.tile(ai, tx, ty),
                ) by {
                assert(self@.tile(ai, tx, ty) == lookup(self.layers@[ai].tile_map(), (tx, ty)));
                assert(self@.tile(n as int, tx, ty) == lookup(self.layers@[n as int].tile_map(), (tx, ty)));
                assert(o@.tile(ai, tx, ty) == lookup(o.layers@[ai].tile_map(), (tx, ty)));
            }
        }
        Some(self.active_layer_idx)
    }
}

impl Canvas {
    /// Bounding box (min x, min y, max x, max y), inclusive, in canvas
    /// pixels, of the content of layer `layer_idx`: its pixels that are not
    /// fully transparent and, when a selection test is given, pass it at
    /// their canvas coordinates. `None` when there is no such pixel or no
    /// such layer.
    pub fn get_content_bounds<F: Fn(i32, i32) -> bool>(&self, layer_idx: usize, selection: Option<&F>) -> (r: Option<
        (i32, i32, i32, i32),
    >)
        requires
            self.wf(),
            selection matches Some(f) ==> forall|x: i32, y: i32| call_requires(*f, (x, y)),
            selection matches Some(f) ==> deterministic(*f),
            forall|tx: i32, ty: i32|
                tile_data(#[trigger] self@.tile(layer_idx as int, tx, ty)) is Some ==> coord_fits(tx, self@.tile_size)
                    && coord_fits(ty, self@.tile_size),
        ensures
            layer_idx >= self@.layers.len() ==> r is None,
            forall|tx: i32, ty: i32, j: int|
                #[trigger] tile_content(selection, self@.tile_size, tx, ty, self@.tile(layer_idx as int, tx, ty), j)
                    ==> (r matches Some(c) && encloses(
                    c,
                    pixel_x(tx, self@.tile_size, j),
                    pixel_y(ty, self@.tile_size, j),
                )),
            r matches Some(c) ==> forall|e: int|
                0 <= e < 4 ==> #[trigger] self@.content_edge_met(layer_idx as int, selection, c, e),
    {
        if layer_idx >= self.layers.len() {
            proof {
                assert forall|tx: i32, ty: i32, j: int|
                    #[trigger] tile_content(selection, self@.tile_size, tx, ty, self@.tile(layer_idx as int, tx, ty), j)
                    implies false by {
                    assert(self@.tile(layer_idx as int, tx, ty) is None);
                }
            }
            return None;
        }
        proof {
            self.lemma_view_wf();
        }
        let ts = self.tile_size;
        let ghost tl = (ts * ts) as nat;
        let ghost l = layer_idx as int;
        proof {
            assert forall|k: (i32, i32)|
                tile_data(#[trigger] lookup(self.layers@[l].tile_map(), k)) is Some implies coord_fits(k.0, ts as nat)
                && coord_fits(k.1, ts as nat) by {
                assert(self@.tile(l, k.0, k.1) == lookup(self.layers@[l].tile_map(), k));
            }
        }
        let r = self.layers[layer_idx].content_bounds(ts, selection, Ghost(tl));
        proof {
            assert forall|tx: i32, ty: i32| #[trigger] self@.tile(l, tx, ty) == lookup(
                self.layers@[l].tile_map(),
                (tx, ty),
            ) by {}
            if let Some(c) = r {
                assert forall|e: int| 0 <= e < 4 implies #[trigger] self@.content_edge_met(l, selection, c, e) by {
                    assert(map_edge_met(selection, ts as nat, self.layers@[l].tile_map(), c, e));
                    let (wx, wy, wj) = choose|wx: i32, wy: i32, wj: int|
                        #[trigger] tile_content(
                            selection,
                            ts as nat,
                            wx,
                            wy,
                            lookup(self.layers@[l].tile_map(), (wx, wy)),
                            wj,
                        ) && along(pixel_x(wx, ts as nat, wj), pixel_y(wy, ts as nat, wj), e) == edge(c, e);
                    assert(self@.tile(l, wx, wy) == lookup(self.layers@[l].tile_map(), (wx, wy)));
                    assert(tile_content(selection, self@.tile_size, wx, wy, self@.tile(l, wx, wy), wj));
                }
            }
        }
        r
    }
}

/// The list with the item at `from` taken out and put back at `to`.
pub open spec fn moved<A>(s: Seq<A>, from: int, to: int) -> Seq<A> {
    s.remove(from).insert(to, s[from])
}

/// Where the item at `idx` ends up when the item at `from` moves to `to`:
/// the moved item goes to `to`, the items in between shift by one toward
/// `from`, the others stay.
pub open spec fn reordered(idx: int, from: int, to: int) -> int {
    if idx == from {
        to
    } else if from < idx && idx <= to {
        idx - 1
    } else if to <= idx && idx < from {
        idx + 1
    } else {
        idx
    }
}

/// Where the item at `idx` ends up when the item at `from` moves to `to`.
pub fn reorder_index(idx: usize, from: usize, to: usize) -> (r: usize)
    requires
        to < usize::MAX,
    ensures
        r == reordered(idx as int, from as int, to as int),
{
    if idx == from {
        to
    } else if from < idx && idx <= to {
        idx - 1
    } else if to <= idx && idx < from {
        idx + 1
    } else {
        idx
    }
}

/// Moving an item keeps every item, each at the index `reordered` gives.
pub proof fn lemma_moved_tracks<A>(s: Seq<A>, from: int, to: int)
    requires
        0 <= from < s.len(),
        0 <= to < s.len(),
    ensures
        moved(s, from, to).len() == s.len(),
        forall|i: int| 0 <= i < s.len() ==> 0 <= #[trigger] reordered(i, from, to) < s.len() && moved(s, from, to)[reordered(i, from, to)] == s[i],
{
    let m = moved(s, from, to);
    assert forall|i: int| 0 <= i < s.len() implies 0 <= #[trigger] reordered(i, from, to) < s.len() && m[reordered(i, from, to)] == s[i] by {
        let r = s.remove(from);
        if i == from {
        } else if i < from {
            assert(r[i] == s[i]);
        } else {
            assert(r[i - 1] == s[i]);
        }
    }
}

/// Takes the item at `from` out of the list and inserts it at `to`.
pub fn move_item<A>(v: &mut Vec<A>, from: usize, to: usize)
    requires
        from < old(v)@.len(),
        to < old(v)@.len(),
    ensures
        final(v)@ == moved(old(v)@, from as int, to as int),
{
    let item = v.remove(from);
    v.insert(to, item);
}

/// Remove the entry at `idx` of a per-layer list, keeping the order of the
/// others; false, changing nothing, when there is no such entry.
pub fn remove_entry<A>(v: &mut Vec<A>, idx: usize) -> (removed: bool)
    ensures
        removed == (idx < old(v)@.len()),
        removed ==> final(v)@ == old(v)@.remove(idx as int),
        !removed ==> final(v)@ == old(v)@,
{
    if idx < v.len() {
        let _ = v.remove(idx);
        true
    } else {
        false
    }
}

impl Canvas {
    /// Move the layer at `from` to position `to` (clamped to the last
    /// position), keeping the same layer active. Returns the clamped target,
    /// or `None`, changing nothing, when `from` is not a layer or the layer
    /// would stay in place.
    pub fn reorder_layers(&mut self, from: usize, to: usize) -> (r: Option<usize>)
        requires
            old(self).wf(),
        ensures
            final(self).wf(),
            ({
                let o = old(self)@;
                let n = o.layers.len();
                let t = if to < n { to as int } else { n - 1 };
                if from >= n || from == t {
                    r is None && final(self)@ == o
                } else {
                    let f = final(self)@;
                    &&& r == Some(t as usize)
                    &&& Canvas::same_except_tiles(f, CanvasView {
                        layers: moved(o.layers, from as int, t),
                        active_layer_idx: reordered(o.active_layer_idx as int, from as int, t) as nat,
                        ..o
                    })
                    &&& forall|m: int, tx: i32, ty: i32|
                        0 <= m < n ==> #[trigger] f.tile(reordered(m, from as int, t), tx, ty) == o.tile(m, tx, ty)
                    &&& forall|m: int, tx: i32, ty: i32| (m < 0 || m >= n) ==> f.tile(m, tx, ty) is None
                }
            }),
    {
        let len = self.layers.len();
        if from >= len {
            return None;
        }
        let t = if to < len { to } else { len - 1 };
        if from == t {
            return None;
        }
        let ghost o = *self;
        move_item(&mut self.layers, from, t);
        self.active_layer_idx = reorder_index(self.active_layer_idx, from, t);
        proof {
            lemma_moved_tracks(o.layers@, from as int, t as int);
            lemma_moved_tracks(o@.layers, from as int, t as int);
            assert forall|m: int| 0 <= m < self.layers@.len() implies (#[trigger] self.layers@[m]).wf(
                (self.tile_size * self.tile_size) as nat,
            ) by {
                let src = if m == t { from as int } else if from < m + 1 && m + 1 <= t { m + 1 } else if t <= m - 1 && m - 1 < from { m - 1 } else { m };
                assert(reordered(src, from as int, t as int) == m);
                assert(self.layers@[m] == o.layers@[src]);
            }
            assert(self@.layers =~= moved(o@.layers, from as int, t as int)) by {
                assert forall|m: int| 0 <= m < len implies self@.layers[m] == moved(o@.layers, from as int, t as int)[m] by {
                    let src = if m == t { from as int } else if from < m + 1 && m + 1 <= t { m + 1 } else if t <= m - 1 && m - 1 < from { m - 1 } else { m };
                    assert(reordered(src, from as int, t as int) == m);
                    assert(self.layers@[m] == o.layers@[src]);
                }
            }
            assert forall|m: int, tx: i32, ty: i32| 0 <= m < len implies #[trigger] self@.tile(
                reordered(m, from as int, t as int),
                tx,
                ty,
            ) == o@.tile(m, tx, ty) by {
                assert(self.layers@[reordered(m, from as int, t as int)] == o.layers@[m]);
            }
        }
        Some(t)
    }

    /// Remove the layer at `idx` (nothing happens when there is none),
    /// clamping the active layer index to the shorter list.
    pub fn remove_layer(&mut self, idx: usize) -> (removed: bool)
        requires
            old(self).wf(),
        ensures
            final(self).wf(),
            removed == (idx < old(self)@.layers.len()),
            !removed ==> final(self)@ == old(self)@,
            removed ==> {
                let o = old(self)@;
                let f = final(self)@;
                let n = (o.layers.len() - 1) as nat;
                &&& Canvas::same_except_tiles(f, CanvasView {
                    layers: o.layers.remove(idx as int),
                    active_layer_idx: if o.active_layer_idx >= n {
                        if n == 0 { 0 } else { (n - 1) as nat }
                    } else {
                        o.active_layer_idx
                    },
                    ..o
                })
                &&& forall|m: int, tx: i32, ty: i32| 0 <= m < idx ==> #[trigger] f.tile(m, tx, ty) == o.tile(m, tx, ty)
                &&& forall|m: int, tx: i32, ty: i32| idx <= m ==> #[trigger] f.tile(m, tx, ty) == o.tile(m + 1, tx, ty)
            },
    {
        if idx >= self.layers.len() {
            return false;
        }
        let ghost o = *self;
        let _ = self.layers.remove(idx);
        let n = self.layers.len();
        if self.active_layer_idx >= n {
            self.active_layer_idx = if n == 0 { 0 } else { n - 1 };
        }
        proof {
            assert forall|m: int| 0 <= m < self.layers@.len() implies (#[trigger] self.layers@[m]).wf(
                (self.tile_size * self.tile_size) as nat,
            ) by {
                if m < idx {
                    assert(self.layers@[m] == o.layers@[m]);
                } else {
                    assert(self.layers@[m] == o.layers@[m + 1]);
                }
            }
            assert(self@.layers =~= o@.layers.remove(idx as int)) by {
                assert forall|m: int| 0 <= m < n implies self@.layers[m] == o@.layers.remove(idx as int)[m] by {
                    if m < idx {
                        assert(self.layers@[m] == o.layers@[m]);
                    } else {
                        assert(self.layers@[m] == o.layers@[m + 1]);
                    }
                }
            }
            assert forall|m: int, tx: i32, ty: i32| 0 <= m < idx implies #[trigger] self@.tile(m, tx, ty) == o@.tile(
                m,
                tx,
                ty,
            ) by {
                assert(self.layers@[m] == o.layers@[m]);
            }
            assert forall|m: int, tx: i32, ty: i32| idx <= m implies #[trigger] self@.tile(m, tx, ty) == o@.tile(
                m + 1,
                tx,
                ty,
            ) by {
                if m < n {
                    assert(self.layers@[m] == o.layers@[m + 1]);
                }
            }
        }
        true
    }
}
} // verus!
