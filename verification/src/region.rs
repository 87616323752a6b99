use vstd::prelude::*;
use vstd::arithmetic::div_mod::lemma_fundamental_div_mod_converse;
use crate::pixel::Pixel;

verus! {

/// A rectangle of `h` rows of `w` pixels, starting at column `x0` of row
/// `y0` of a row-major buffer with rows of `ts` pixels, can be read and
/// written in a buffer of `ts * ts` pixels with a region buffer of `len`
/// pixels: the last row ends inside the buffer and the region buffer holds
/// at least `w * h` pixels.
pub open spec fn region_fits(ts: nat, x0: nat, y0: nat, w: nat, h: nat, len: nat) -> bool {
    &&& w * h <= len
    &&& h > 0 ==> (y0 + h - 1) * ts + x0 + w <= ts * ts
}

/// Whether the rectangle fits a tile of edge `ts` with a region buffer of
/// `len` pixels (`region_fits`).
pub fn fits_region(ts: usize, x0: usize, y0: usize, w: usize, h: usize, len: usize) -> (r: bool)
    ensures
        r == region_fits(ts as nat, x0 as nat, y0 as nat, w as nat, h as nat, len as nat),
{
    let area = match w.checked_mul(h) {
        Some(a) => a,
        None => {
            return false;
        },
    };
    if area > len {
        return false;
    }
    if h == 0 {
        return true;
    }
    let t = ts as u128;
    assert(t * t <= u128::MAX) by (nonlinear_arith)
        requires
            t <= usize::MAX,
            usize::MAX <= 0xffff_ffff_ffff_ffff,
    ;
    let square = t * t;
    let row = (y0 as u128) + (h as u128) - 1;
    match row.checked_mul(t) {
        None => {
            assert(row * t > square) by (nonlinear_arith)
                requires
                    row * t > u128::MAX,
                    square <= u128::MAX,
            ;
            false
        },
        Some(p) => match p.checked_add((x0 as u128) + (w as u128)) {
            None => false,
            Some(end) => end <= square,
        },
    }
}

/// Buffer position of the first pixel of row `row` of the rectangle.
pub open spec fn row_start(ts: nat, x0: nat, y0: nat, row: nat) -> int {
    ((y0 + row) * ts + x0) as int
}

/// Buffer position of the `i`-th pixel of the rectangle, rows first.
pub open spec fn region_pos(ts: nat, x0: nat, y0: nat, w: nat, i: int) -> int {
    (y0 + i / (w as int)) * ts + x0 + i % (w as int)
}

/// The rectangle's pixels read from `t`, rows first.
pub open spec fn extract_region(t: Seq<Pixel>, ts: nat, x0: nat, y0: nat, w: nat, h: nat) -> Seq<Pixel> {
    Seq::new(w * h, |i: int| t[region_pos(ts, x0, y0, w, i)])
}

/// `t` with the `w` pixels starting at `start` replaced by `r[off..off + w]`.
pub open spec fn overwrite_run(t: Seq<Pixel>, start: int, w: nat, r: Seq<Pixel>, off: int) -> Seq<Pixel> {
    Seq::new(t.len(), |j: int| if start <= j < start + w { r[off + (j - start)] } else { t[j] })
}

/// `t` after copying the first `rows` rows of the region buffer `r` into
/// the rectangle, one row after the other.
pub open spec fn write_region(
    t: Seq<Pixel>,
    ts: nat,
    x0: nat,
    y0: nat,
    w: nat,
    rows: nat,
    r: Seq<Pixel>,
) -> Seq<Pixel>
    decreases rows,
{
    if rows == 0 {
        t
    } else {
        overwrite_run(
            write_region(t, ts, x0, y0, w, (rows - 1) as nat, r),
            row_start(ts, x0, y0, (rows - 1) as nat),
            w,
            r,
            ((rows - 1) * w) as int,
        )
    }
}

/// Splitting an offset of a `w` by `h` region into row and column.
pub proof fn lemma_div_rows(i: int, w: nat, h: nat)
    requires
        0 <= i < w * h,
    ensures
        w > 0,
        0 <= i / (w as int) < h,
        0 <= i % (w as int) < w,
        (i / (w as int)) * w + i % (w as int) == i,
{
    let wi = w as int;
    assert(w > 0) by (nonlinear_arith)
        requires
            0 <= i < w * h,
    ;
    let q = i / wi;
    let c = i % wi;
    assert(q * wi + c == i) by {
        vstd::arithmetic::div_mod::lemma_fundamental_div_mod(i, wi);
        vstd::arithmetic::mul::lemma_mul_is_commutative(q, wi);
    }
    assert(0 <= q < h) by (nonlinear_arith)
        requires
            q * wi + c == i,
            0 <= c < wi,
            0 <= i < wi * h,
            wi > 0,
    ;
}

/// Rows of a region inside the buffer start inside it.
proof fn lemma_row_fits(ts: nat, x0: nat, y0: nat, w: nat, h: nat, row: nat)
    requires
        ts > 0,
        row < h,
        (y0 + h - 1) * ts + x0 + w <= ts * ts,
    ensures
        (y0 + row) * ts + x0 + w <= ts * ts,
        y0 + row <= ts,
        x0 + w <= ts * ts,
{
    assert((y0 + row) * ts + x0 + w <= ts * ts) by (nonlinear_arith)
        requires
            row < h,
            (y0 + h - 1) * ts + x0 + w <= ts * ts,
    ;
    assert(y0 + row <= ts) by (nonlinear_arith)
        requires
            ts > 0,
            (y0 + row) * ts + x0 + w <= ts * ts,
    ;
}

/// Pixel at row `r`, column `c` of a buffer with rows of `w` pixels.
pub open spec fn at_rc(s: Seq<Pixel>, w: nat, r: int, c: int) -> Pixel {
    s[r * w + c]
}

/// Copies the rectangle out of a tile buffer, rows first.
pub fn read_region(
    data: &Vec<Pixel>,
    ts: usize,
    x0: usize,
    y0: usize,
    w: usize,
    h: usize,
    len: usize,
) -> (out: Vec<Pixel>)
    requires
        ts > 0,
        data@.len() == ts * ts,
        ts * ts <= usize::MAX,
        region_fits(ts as nat, x0 as nat, y0 as nat, w as nat, h as nat, len as nat),
    ensures
        out@ == extract_region(data@, ts as nat, x0 as nat, y0 as nat, w as nat, h as nat),
{
    let mut out: Vec<Pixel> = Vec::new();
    let mut row: usize = 0;
    while row < h
        invariant
            ts > 0,
            row <= h,
            data@.len() == ts * ts,
            ts * ts <= usize::MAX,
            region_fits(ts as nat, x0 as nat, y0 as nat, w as nat, h as nat, len as nat),
            out@.len() == row * w,
            forall|r: int, c: int|
                0 <= r < row && 0 <= c < w ==> #[trigger] at_rc(out@, w as nat, r, c) == data@[(y0 + r) * ts + x0 + c],
        decreases h - row,
    {
        proof {
            lemma_row_fits(ts as nat, x0 as nat, y0 as nat, w as nat, h as nat, row as nat);
            assert((y0 + row) * ts <= ts * ts);
        }
        let start = (y0 + row) * ts + x0;
        let ghost before = out@;
        let mut c: usize = 0;
        while c < w
            invariant
                c <= w,
                row < h,
                start == (y0 + row) * ts + x0,
                start + w <= ts * ts,
                ts * ts <= usize::MAX,
                data@.len() == ts * ts,
                out@.len() == row * w + c,
                out@.subrange(0, (row * w) as int) == before,
                before.len() == row * w,
                forall|k: int| start <= k < start + c ==> out@[row * w + (k - start)] == #[trigger] data@[k],
            decreases w - c,
        {
            out.push(data[start + c]);
            c = c + 1;
            assert(out@.subrange(0, (row * w) as int) =~= before);
        }
        proof {
            assert(out@.len() == (row + 1) * w) by (nonlinear_arith)
                requires
                    out@.len() == row * w + w,
            ;
            assert forall|r: int, k: int| 0 <= r < row + 1 && 0 <= k < w implies #[trigger] at_rc(out@, w as nat, r, k)
                == data@[(y0 + r) * ts + x0 + k] by {
                if r < row {
                    assert(r * w + k < row * w) by (nonlinear_arith)
                        requires
                            r < row,
                            0 <= k < w,
                    ;
                    assert(out@[r * w + k] == out@.subrange(0, (row * w) as int)[r * w + k]);
                    assert(at_rc(before, w as nat, r, k) == data@[(y0 + r) * ts + x0 + k]);
                } else {
                    assert(r == row);
                    assert(data@[(y0 + r) * ts + x0 + k] == data@[start + k]);
                }
            }
        }
        row = row + 1;
    }
    proof {
        let e = extract_region(data@, ts as nat, x0 as nat, y0 as nat, w as nat, h as nat);
        assert(out@.len() == e.len());
        assert(out@.len() == e.len()) by (nonlinear_arith)
            requires
                out@.len() == h * w,
                e.len() == w * h,
        ;
        assert forall|i: int| 0 <= i < e.len() implies #[trigger] out@[i] == e[i] by {
            let wi = w as int;
            lemma_div_rows(i, w as nat, h as nat);
            assert(at_rc(out@, w as nat, i / wi, i % wi) == out@[i]);
        }
        assert(out@ =~= e);
    }
    out
}

/// Copies the region buffer into the rectangle of a tile buffer, row after
/// row.
pub fn write_region_into(
    data: &mut Vec<Pixel>,
    ts: usize,
    x0: usize,
    y0: usize,
    w: usize,
    h: usize,
    src: &Vec<Pixel>,
)
    requires
        ts > 0,
        old(data)@.len() == ts * ts,
        ts * ts <= usize::MAX,
        region_fits(ts as nat, x0 as nat, y0 as nat, w as nat, h as nat, src@.len()),
    ensures
        final(data)@ == write_region(old(data)@, ts as nat, x0 as nat, y0 as nat, w as nat, h as nat, src@),
        final(data)@.len() == old(data)@.len(),
{
    let mut row: usize = 0;
    while row < h
        invariant
            ts > 0,
            row <= h,
            ts * ts <= usize::MAX,
            region_fits(ts as nat, x0 as nat, y0 as nat, w as nat, h as nat, src@.len()),
            data@ == write_region(old(data)@, ts as nat, x0 as nat, y0 as nat, w as nat, row as nat, src@),
            data@.len() == ts * ts,
        decreases h - row,
    {
        proof {
            lemma_row_fits(ts as nat, x0 as nat, y0 as nat, w as nat, h as nat, row as nat);
            assert((y0 + row) * ts <= ts * ts);
            assert(row * w + w <= w * h) by (nonlinear_arith)
                requires
                    row < h,
            ;
            assert(row * w + w <= src@.len());
            assert(src@.len() == src.len());
        }
        let start = (y0 + row) * ts + x0;
        let off = row * w;
        let ghost prev = data@;
        let mut c: usize = 0;
        while c < w
            invariant
                c <= w,
                start == (y0 + row) * ts + x0,
                start + w <= ts * ts,
                ts * ts <= usize::MAX,
                off == row * w,
                off + w <= src@.len(),
                src@.len() <= usize::MAX,
                prev.len() == ts * ts,
                data@ == Seq::new(
                    prev.len(),
                    |j: int| if start <= j < start + c { src@[off + (j - start)] } else { prev[j] },
                ),
            decreases w - c,
        {
            data.set(start + c, src[off + c]);
            c = c + 1;
            assert(data@ =~= Seq::new(
                prev.len(),
                |j: int| if start <= j < start + c { src@[off + (j - start)] } else { prev[j] },
            ));
        }
        assert(data@ =~= write_region(
            old(data)@,
            ts as nat,
            x0 as nat,
            y0 as nat,
            w as nat,
            (row + 1) as nat,
            src@,
        ));
        row = row + 1;
    }
}

} // verus!

verus! {

/// Whether buffer position `j` lies in the rectangle when its rows, each at
/// most a tile row wide, are laid out `ts` pixels apart from position
/// `y0 * ts + x0` on (a row may run on into the next tile row).
pub open spec fn in_rows(ts: nat, x0: nat, y0: nat, w: nat, h: nat, j: int) -> bool {
    let d = j - (y0 * ts + x0);
    &&& 0 <= d
    &&& d / (ts as int) < h
    &&& d % (ts as int) < w
}

/// Position in the region buffer of the rectangle pixel at buffer position
/// `j`, for rows laid out as in `in_rows`.
pub open spec fn rows_offset(ts: nat, x0: nat, y0: nat, w: nat, j: int) -> int {
    let d = j - (y0 * ts + x0);
    (d / (ts as int)) * w + d % (ts as int)
}

/// The `i`-th pixel of a rectangle with rows no wider than a tile lies in
/// it, at offset `i`, and inside a buffer the rectangle fits.
pub proof fn lemma_pos_in_rows(ts: nat, x0: nat, y0: nat, w: nat, h: nat, i: int)
    requires
        ts > 0,
        w <= ts,
        0 <= i < w * h,
        h > 0 ==> (y0 + h - 1) * ts + x0 + w <= ts * ts,
    ensures
        in_rows(ts, x0, y0, w, h, region_pos(ts, x0, y0, w, i)),
        rows_offset(ts, x0, y0, w, region_pos(ts, x0, y0, w, i)) == i,
        0 <= region_pos(ts, x0, y0, w, i) < ts * ts,
{
    let wi = w as int;
    let tsi = ts as int;
    lemma_div_rows(i, w, h);
    let q = i / wi;
    let e = i % wi;
    let p = region_pos(ts, x0, y0, w, i);
    let d = p - (y0 * ts + x0);
    assert(d == q * tsi + e) by (nonlinear_arith)
        requires
            p == (y0 + q) * tsi + x0 + e,
            d == p - (y0 * ts + x0),
            tsi == ts,
    ;
    lemma_fundamental_div_mod_converse(d, tsi, q, e);
    assert(p < ts * ts) by (nonlinear_arith)
        requires
            p == (y0 + q) * tsi + x0 + e,
            0 <= q < h,
            0 <= e < wi,
            (y0 + h - 1) * ts + x0 + w <= ts * ts,
            tsi == ts,
            wi == w,
    ;
}

/// A position in a rectangle with rows no wider than a tile is the pixel
/// at its offset, which lies in the region buffer.
pub proof fn lemma_rows_offset(ts: nat, x0: nat, y0: nat, w: nat, h: nat, j: int)
    requires
        ts > 0,
        w <= ts,
        in_rows(ts, x0, y0, w, h, j),
    ensures
        0 <= rows_offset(ts, x0, y0, w, j) < w * h,
        region_pos(ts, x0, y0, w, rows_offset(ts, x0, y0, w, j)) == j,
{
    let tsi = ts as int;
    let wi = w as int;
    let d = j - (y0 * ts + x0);
    let q = d / tsi;
    let e = d % tsi;
    assert(d == q * tsi + e) by {
        vstd::arithmetic::div_mod::lemma_fundamental_div_mod(d, tsi);
        vstd::arithmetic::mul::lemma_mul_is_commutative(q, tsi);
    }
    assert(0 <= q) by {
        vstd::arithmetic::div_mod::lemma_div_pos_is_pos(d, tsi);
    }
    let o = rows_offset(ts, x0, y0, w, j);
    assert(o == q * wi + e);
    assert(0 <= o < w * h) by (nonlinear_arith)
        requires
            o == q * wi + e,
            0 <= q < h,
            0 <= e < wi,
            wi == w,
    ;
    lemma_fundamental_div_mod_converse(o, wi, q, e);
    assert(region_pos(ts, x0, y0, w, o) == (y0 + q) * tsi + x0 + e);
    assert((y0 + q) * tsi + x0 + e == j) by (nonlinear_arith)
        requires
            d == q * tsi + e,
            d == j - (y0 * ts + x0),
            tsi == ts,
    ;
}

/// With rows no wider than a tile, writing rows one after the other
/// replaces exactly the rectangle's pixels by their region-buffer pixels.
pub proof fn lemma_write_rows_closed(
    t: Seq<Pixel>,
    ts: nat,
    x0: nat,
    y0: nat,
    w: nat,
    rows: nat,
    r: Seq<Pixel>,
)
    requires
        ts > 0,
        w <= ts,
    ensures
        write_region(t, ts, x0, y0, w, rows, r) == Seq::new(
            t.len(),
            |j: int|
                if in_rows(ts, x0, y0, w, rows, j) {
                    r[rows_offset(ts, x0, y0, w, j)]
                } else {
                    t[j]
                },
        ),
    decreases rows,
{
    if rows > 0 {
        let k = (rows - 1) as nat;
        lemma_write_rows_closed(t, ts, x0, y0, w, k, r);
        let s = row_start(ts, x0, y0, k);
        let tsi = ts as int;
        let base = y0 * ts + x0;
        assert(s == base + k * tsi) by (nonlinear_arith)
            requires
                s == (y0 + k) * ts + x0,
                base == y0 * ts + x0,
                tsi == ts,
        ;
        assert forall|j: int| 0 <= j < t.len() implies #[trigger] write_region(t, ts, x0, y0, w, rows, r)[j] == (
        if in_rows(ts, x0, y0, w, rows, j) {
            r[rows_offset(ts, x0, y0, w, j)]
        } else {
            t[j]
        }) by {
            let d = j - base;
            assert(d == (d / tsi) * tsi + d % tsi) by {
                vstd::arithmetic::div_mod::lemma_fundamental_div_mod(d, tsi);
                vstd::arithmetic::mul::lemma_mul_is_commutative(d / tsi, tsi);
            }
            if s <= j < s + w {
                lemma_fundamental_div_mod_converse(d, tsi, k as int, j - s);
                assert(rows_offset(ts, x0, y0, w, j) == k * w + (j - s));
            } else {
                if 0 <= d && d / tsi == k && d % tsi < w {
                    assert(false);
                }
            }
        }
        assert(write_region(t, ts, x0, y0, w, rows, r) =~= Seq::new(
            t.len(),
            |j: int|
                if in_rows(ts, x0, y0, w, rows, j) {
                    r[rows_offset(ts, x0, y0, w, j)]
                } else {
                    t[j]
                },
        ));
    }
}

} // verus!
