use rusty_painter::atlas::{build_tile_grid, tile_slot, CanvasTile, TileGrid, TileUpload};
use rusty_painter::bounds::tile_bounds;
use rusty_painter::canvas::Canvas;
use rusty_painter::pixel::Pixel;
use rusty_painter::raster::{line_pixels, pixel_perfect_dabs};
use rusty_painter::stroke::clip_to_canvas;

#[test]
fn tile_grid_packs_rows_first() {
    // 10 x 6 canvas, 4-pixel tiles, 8-pixel atlases: 3 x 2 tiles, 2 x 2
    // slots per atlas, so two atlases.
    let (tiles, atlases) = build_tile_grid(10, 6, 4, 8);
    assert_eq!(atlases, 2);
    assert_eq!(tiles.len(), 6);
    assert_eq!(
        tiles[5],
        CanvasTile { dirty: true, atlas_idx: 1, atlas_x: 4, atlas_y: 0, pixel_w: 2, pixel_h: 2, tx: 2, ty: 1 }
    );
    assert_eq!(
        tiles[3],
        CanvasTile { dirty: true, atlas_idx: 0, atlas_x: 4, atlas_y: 4, pixel_w: 4, pixel_h: 2, tx: 0, ty: 1 }
    );
    // An atlas smaller than a tile still holds one tile.
    let (tiles, atlases) = build_tile_grid(10, 6, 4, 2);
    assert_eq!(atlases, 6);
    assert_eq!(tiles[4].atlas_idx, 4);
    assert_eq!((tiles[4].atlas_x, tiles[4].atlas_y), (0, 0));
}

#[test]
fn tile_slot_checks_bounds() {
    assert_eq!(tile_slot(2, 1, 3, 2), Some(5));
    assert_eq!(tile_slot(3, 0, 3, 2), None);
    assert_eq!(tile_slot(0, 2, 3, 2), None);
}

#[test]
fn grid_dirty_tracking() {
    let (mut grid, _) = TileGrid::new(10, 6, 4, 8);
    assert_eq!((grid.tiles_x, grid.tiles_y), (3, 2));
    assert_eq!(grid.tile_index(1, 1), Some(4));
    let uploads = grid.dirty_uploads(10, 6, 4, 3);
    assert_eq!(uploads.len(), 6);
    assert_eq!(uploads[5], TileUpload { idx: 5, x: 8, y: 4, w: 2, h: 2, out_w: 1, out_h: 1 });
    assert_eq!(uploads[0], TileUpload { idx: 0, x: 0, y: 0, w: 4, h: 4, out_w: 2, out_h: 2 });
    // A step of zero is taken as one, a step above the tile size as the tile size.
    assert_eq!(grid.dirty_uploads(10, 6, 4, 0)[1].out_w, 4);
    assert_eq!(grid.dirty_uploads(10, 6, 4, 99)[1].out_w, 1);
    for u in uploads {
        grid.finish_upload(u.idx, u.out_w, u.out_h);
    }
    assert!(grid.tiles.iter().all(|t| !t.dirty));
    assert_eq!((grid.tiles[0].pixel_w, grid.tiles[0].pixel_h), (2, 2));
    assert!(grid.dirty_uploads(10, 6, 4, 1).is_empty());
    assert!(grid.mark_dirty(2, 0));
    assert!(!grid.mark_dirty(3, 0));
    let again = grid.dirty_uploads(10, 6, 4, 1);
    assert_eq!(again.len(), 1);
    assert_eq!(again[0].idx, 2);
    grid.mark_all_dirty();
    assert!(grid.tiles.iter().all(|t| t.dirty));
}

#[test]
fn span_marks_tiles_and_allocates_buffers() {
    let (mut grid, _) = TileGrid::new(10, 6, 4, 8);
    for i in 0..6 {
        grid.finish_upload(i, 4, 4);
    }
    let mut canvas = Canvas::new(10, 6, Pixel::transparent(), 4);
    canvas.add_layer();
    let span = clip_to_canvas(-3, 5, 2, 2, 10, 6, 4).unwrap();
    grid.mark_span_dirty(&mut canvas, span);
    let dirty: Vec<bool> = grid.tiles.iter().map(|t| t.dirty).collect();
    assert_eq!(dirty, vec![true, true, false, false, false, false]);
    assert!(canvas.layer_tile_has_data(1, 0, 0));
    assert!(canvas.layer_tile_has_data(1, 1, 0));
    assert!(!canvas.layer_tile_has_data(1, 2, 0));
}

#[test]
fn layer_data_marks_tiles() {
    let (mut grid, _) = TileGrid::new(10, 6, 4, 8);
    for i in 0..6 {
        grid.finish_upload(i, 4, 4);
    }
    let mut canvas = Canvas::new(10, 6, Pixel::transparent(), 4);
    canvas.add_layer();
    canvas.ensure_layer_tile_exists(0, 2, 1);
    canvas.ensure_layer_tile_exists(1, 0, 0);
    grid.mark_layer_data_dirty(&canvas, 0);
    let dirty: Vec<bool> = grid.tiles.iter().map(|t| t.dirty).collect();
    assert_eq!(dirty, vec![false, false, false, false, false, true]);
}

#[test]
fn line_has_one_pixel_per_step() {
    for &(x0, y0, x1, y1) in &[(0, 0, 7, 3), (5, -2, 1, 9), (-4, -4, 4, 4), (3, 3, 3, 3), (0, 0, 0, -6)] {
        let line = line_pixels(x0, y0, x1, y1);
        let steps = (x1 - x0).abs().max((y1 - y0).abs()) as usize;
        assert_eq!(line.len(), steps + 1);
        for i in 0..line.len() {
            for j in (i + 1)..line.len() {
                assert_ne!(line[i], line[j]);
            }
        }
    }
}

#[test]
fn bresenham_line() {
    assert_eq!(line_pixels(0, 0, 3, 1), vec![(0, 0), (1, 0), (2, 1), (3, 1)]);
    assert_eq!(line_pixels(2, 2, 2, 2), vec![(2, 2)]);
    assert_eq!(line_pixels(0, 0, -2, -2), vec![(0, 0), (-1, -1), (-2, -2)]);
    assert_eq!(line_pixels(0, 3, 0, 0), vec![(0, 3), (0, 2), (0, 1), (0, 0)]);
    let long = line_pixels(-1000, 0, 1000, 1);
    assert_eq!(long.len(), 2001);
    assert_eq!(long[999], (-1, 0));
    assert_eq!(long[1000], (0, 1));
    assert_eq!(*long.last().unwrap(), (1000, 1));
}

#[test]
fn pixel_perfect_steps() {
    assert_eq!(pixel_perfect_dabs(None, 3, 4), Some(vec![(3, 4)]));
    assert_eq!(pixel_perfect_dabs(Some((3, 4)), 3, 4), None);
    assert_eq!(pixel_perfect_dabs(Some((0, 0)), 3, 1), Some(vec![(0, 0), (1, 0), (2, 1), (3, 1)]));
}

#[test]
fn single_tile_bounds() {
    let mut d = vec![Pixel::transparent(); 16];
    d[6] = Pixel::from_rgba_premultiplied(0, 0, 0, 1);
    let none: Option<&fn(i32, i32) -> bool> = None;
    assert_eq!(tile_bounds(&d, 4, 1, 1, none, None), Some((6, 5, 6, 5)));
    assert_eq!(tile_bounds(&d, 4, 1, 1, none, Some((0, 9, 2, 9))), Some((0, 5, 6, 9)));
    assert_eq!(tile_bounds(&vec![Pixel::transparent(); 16], 4, 0, 0, none, None), None);
}
